//! The dynamic-programming matrix: a dense `(n+1) x (m+1)` grid of
//! signed scores in one flat buffer, where cell `(i, j)` holds the best
//! achievable alignment score of the prefixes `a[0..i)` and `b[0..j)`.

use vstd::prelude::*;

use crate::errors::AlignError;
use crate::scoring::MAX_SCORE_MAG;
use crate::scoring::ScoreModel;
use crate::scoring::Scorer;
use crate::scoring::lemma_compare_bounded;
use crate::scoring::token_views;

verus! {

/// Largest sequence length the engine accepts; keeps every buffer index
/// and every accumulated score within machine bounds.
pub const MAX_SEQ_LEN: usize = 0x4000;

/// The greater of two integers.
pub open spec fn max2(x: int, y: int) -> int {
    if x >= y {
        x
    } else {
        y
    }
}

/// The greatest of three integers.
pub open spec fn max3(x: int, y: int, z: int) -> int {
    max2(x, max2(y, z))
}

/// Value of the dynamic-programming cell `(i, j)` for sequences `a` and
/// `b` under model `m` and linear gap cost `gap`: zero at the origin,
/// cumulative gap penalty along row and column zero, and otherwise the
/// best of the diagonal, delete and insert moves.
pub open spec fn dp(
    m: ScoreModel,
    gap: int,
    a: Seq<Seq<char>>,
    b: Seq<Seq<char>>,
    i: int,
    j: int,
) -> int
    decreases max2(i, 0) + max2(j, 0),
{
    if i <= 0 && j <= 0 {
        0
    } else if i <= 0 {
        dp(m, gap, a, b, 0, j - 1) + gap
    } else if j <= 0 {
        dp(m, gap, a, b, i - 1, 0) + gap
    } else {
        max3(
            dp(m, gap, a, b, i - 1, j - 1) + m.compare(a[i - 1], b[j - 1]),
            dp(m, gap, a, b, i - 1, j) + gap,
            dp(m, gap, a, b, i, j - 1) + gap,
        )
    }
}

/// Every cell of the matrix has magnitude at most `(i + j)` times the
/// score-magnitude cap, so all accumulation fits comfortably in `i64`.
pub proof fn lemma_dp_bound(
    m: ScoreModel,
    gap: int,
    a: Seq<Seq<char>>,
    b: Seq<Seq<char>>,
    i: int,
    j: int,
)
    requires
        m.bounded(MAX_SCORE_MAG as int),
        -MAX_SCORE_MAG <= gap <= MAX_SCORE_MAG,
        0 <= i,
        0 <= j,
    ensures
        -(i + j) * (MAX_SCORE_MAG as int) <= dp(m, gap, a, b, i, j) <= (i + j) * (
        MAX_SCORE_MAG as int),
    decreases i + j,
{
    if i == 0 && j == 0 {
    } else if i == 0 {
        lemma_dp_bound(m, gap, a, b, 0, j - 1);
    } else if j == 0 {
        lemma_dp_bound(m, gap, a, b, i - 1, 0);
    } else {
        lemma_dp_bound(m, gap, a, b, i - 1, j - 1);
        lemma_dp_bound(m, gap, a, b, i - 1, j);
        lemma_dp_bound(m, gap, a, b, i, j - 1);
        lemma_compare_bounded(m, a[i - 1], b[j - 1], MAX_SCORE_MAG as int);
    }
}

/// Row and column zero hold the cumulative gap penalty: aligning a
/// prefix against nothing costs one gap per position.
pub proof fn lemma_dp_base(m: ScoreModel, gap: int, a: Seq<Seq<char>>, b: Seq<Seq<char>>, i: int)
    requires
        0 <= i,
    ensures
        dp(m, gap, a, b, i, 0) == i * gap,
        dp(m, gap, a, b, 0, i) == i * gap,
    decreases i,
{
    if i == 0 {
    } else {
        lemma_dp_base(m, gap, a, b, i - 1);
        assert((i - 1) * gap + gap == i * gap) by (nonlinear_arith);
    }
}

/// The filled dynamic-programming matrix for one pair of sequences: a
/// flat row-major buffer of `(n+1) * (m+1)` scores, carrying the
/// configuration it was built from as ghost state.
pub struct AlignmentMatrix {
    cells: Vec<i64>,
    cols: usize,
    model: Ghost<ScoreModel>,
    gap: Ghost<int>,
    a_tokens: Ghost<Seq<Seq<char>>>,
    b_tokens: Ghost<Seq<Seq<char>>>,
}

impl AlignmentMatrix {
    /// The scoring model the matrix was filled under.
    pub closed spec fn spec_model(&self) -> ScoreModel {
        self.model@
    }

    /// The linear gap cost the matrix was filled under.
    pub closed spec fn spec_gap(&self) -> int {
        self.gap@
    }

    /// The first sequence, as token character sequences.
    pub closed spec fn spec_a(&self) -> Seq<Seq<char>> {
        self.a_tokens@
    }

    /// The second sequence, as token character sequences.
    pub closed spec fn spec_b(&self) -> Seq<Seq<char>> {
        self.b_tokens@
    }

    /// The matrix is fully materialized and every cell equals the value
    /// of the dynamic-programming recurrence at its coordinates.
    pub closed spec fn wf(&self) -> bool {
        &&& 1 <= self.spec_a().len() <= MAX_SEQ_LEN
        &&& 1 <= self.spec_b().len() <= MAX_SEQ_LEN
        &&& self.spec_model().bounded(MAX_SCORE_MAG as int)
        &&& -MAX_SCORE_MAG <= self.spec_gap() <= MAX_SCORE_MAG
        &&& self.cols == self.spec_b().len() + 1
        &&& self.cells@.len() == (self.spec_a().len() + 1) * (self.cols as int)
        &&& forall|i: int, j: int|
            0 <= i <= self.spec_a().len() && 0 <= j <= self.spec_b().len() ==> self.cells@[i * (
            self.cols as int) + j] == #[trigger] dp(
                self.spec_model(),
                self.spec_gap(),
                self.spec_a(),
                self.spec_b(),
                i,
                j,
            )
    }

    /// Read the cell at row `i`, column `j`.
    pub fn at(&self, i: usize, j: usize) -> (r: i64)
        requires
            self.wf(),
            i <= self.spec_a().len(),
            j <= self.spec_b().len(),
        ensures
            r as int == dp(self.spec_model(), self.spec_gap(), self.spec_a(), self.spec_b(), i as int, j as int),
    {
        proof {
            let ii = i as int;
            let jj = j as int;
            let cc = self.cols as int;
            let nn = self.spec_a().len() as int;
            assert(ii * cc + jj < (nn + 1) * cc) by (nonlinear_arith)
                requires
                    0 <= ii <= nn,
                    0 <= jj < cc,
            ;
            assert(ii * cc + jj <= 0x4001 * 0x4001) by (nonlinear_arith)
                requires
                    0 <= ii <= 0x4000,
                    0 <= jj,
                    jj < cc,
                    cc <= 0x4001,
            ;
            assert(self.cells@[ii * cc + jj] == dp(
                self.spec_model(),
                self.spec_gap(),
                self.spec_a(),
                self.spec_b(),
                ii,
                jj,
            ));
        }
        let idx = i * self.cols + j;
        self.cells[idx]
    }

    /// Fill the matrix for `a` and `b` under the given scorer and linear
    /// gap cost. Fails exactly when one of the sequences is empty.
    pub fn fill(a: &Vec<String>, b: &Vec<String>, scorer: &Scorer, gap_score: i64) -> (r: Result<
        AlignmentMatrix,
        AlignError,
    >)
        requires
            a@.len() <= MAX_SEQ_LEN,
            b@.len() <= MAX_SEQ_LEN,
            scorer@.bounded(MAX_SCORE_MAG as int),
            -MAX_SCORE_MAG <= gap_score <= MAX_SCORE_MAG,
        ensures
            match r {
                Ok(mat) => {
                    &&& a@.len() > 0 && b@.len() > 0
                    &&& mat.wf()
                    &&& mat.spec_model() == scorer@
                    &&& mat.spec_gap() == gap_score as int
                    &&& mat.spec_a() == token_views(a@)
                    &&& mat.spec_b() == token_views(b@)
                },
                Err(e) => (a@.len() == 0 || b@.len() == 0) && e == AlignError::InvalidInput,
            },
    {
        if a.len() == 0 || b.len() == 0 {
            return Err(AlignError::InvalidInput);
        }
        let n = a.len();
        let m = b.len();
        let cols = m + 1;
        let ghost mdl = scorer@;
        let ghost gp = gap_score as int;
        let ghost av = token_views(a@);
        let ghost bv = token_views(b@);
        let mut cells: Vec<i64> = Vec::new();
        let mut i: usize = 0;
        while i <= n
            invariant
                1 <= n <= MAX_SEQ_LEN,
                1 <= m <= MAX_SEQ_LEN,
                i <= n + 1,
                cols == m + 1,
                n == a@.len(),
                m == b@.len(),
                mdl == scorer@,
                mdl.bounded(MAX_SCORE_MAG as int),
                gp == gap_score as int,
                -MAX_SCORE_MAG <= gap_score <= MAX_SCORE_MAG,
                av == token_views(a@),
                bv == token_views(b@),
                cells@.len() == i * cols,
                forall|p: int, q: int|
                    0 <= p < i && 0 <= q < cols ==> cells@[p * (cols as int) + q] == #[trigger] dp(
                        mdl,
                        gp,
                        av,
                        bv,
                        p,
                        q,
                    ),
            decreases n + 1 - i,
        {
            proof {
                assert(i as int * (cols as int) <= 0x4001 * 0x4001) by (nonlinear_arith)
                    requires
                        0 <= i as int <= 0x4001,
                        0 <= cols as int <= 0x4001,
                ;
            }
            let row_base = i * cols;
            let mut j: usize = 0;
            while j <= m
                invariant
                    1 <= n <= MAX_SEQ_LEN,
                    1 <= m <= MAX_SEQ_LEN,
                    i <= n,
                    j <= m + 1,
                    cols == m + 1,
                    n == a@.len(),
                    m == b@.len(),
                    mdl == scorer@,
                    mdl.bounded(MAX_SCORE_MAG as int),
                    gp == gap_score as int,
                    -MAX_SCORE_MAG <= gap_score <= MAX_SCORE_MAG,
                    av == token_views(a@),
                    bv == token_views(b@),
                    row_base == i * cols,
                    row_base <= 0x1000_8001,
                    cells@.len() == i * cols + j,
                    forall|p: int, q: int|
                        0 <= p < i && 0 <= q < cols ==> cells@[p * (cols as int) + q]
                            == #[trigger] dp(mdl, gp, av, bv, p, q),
                    forall|q: int|
                        0 <= q < j ==> cells@[i * (cols as int) + q] == #[trigger] dp(
                            mdl,
                            gp,
                            av,
                            bv,
                            i as int,
                            q,
                        ),
                decreases m + 1 - j,
            {
                let v: i64;
                if i == 0 && j == 0 {
                    v = 0;
                    proof {
                        assert(v as int == dp(mdl, gp, av, bv, 0, 0));
                    }
                } else if i == 0 {
                    proof {
                        lemma_dp_bound(mdl, gp, av, bv, 0, j as int - 1);
                        assert(cells@[0 * (cols as int) + (j as int - 1)] == dp(mdl, gp, av, bv, 0, j as int - 1));
                    }
                    let prev = cells[j - 1];
                    v = prev + gap_score;
                    proof {
                        assert(v as int == dp(mdl, gp, av, bv, 0, j as int));
                    }
                } else if j == 0 {
                    proof {
                        assert((i as int - 1) * (cols as int) == i as int * (cols as int) - (
                        cols as int)) by (nonlinear_arith);
                        assert((i as int - 1) * (cols as int) >= 0) by (nonlinear_arith)
                            requires
                                i as int >= 1,
                                cols as int >= 0,
                        ;
                        lemma_dp_bound(mdl, gp, av, bv, i as int - 1, 0);
                        assert(cells@[(i as int - 1) * (cols as int) + 0] == dp(mdl, gp, av, bv, i as int - 1, 0));
                    }
                    let prev = cells[row_base - cols];
                    v = prev + gap_score;
                    proof {
                        assert(v as int == dp(mdl, gp, av, bv, i as int, 0));
                    }
                } else {
                    proof {
                        assert((i as int - 1) * (cols as int) == i as int * (cols as int) - (
                        cols as int)) by (nonlinear_arith);
                        assert((i as int - 1) * (cols as int) >= 0) by (nonlinear_arith)
                            requires
                                i as int >= 1,
                                cols as int >= 0,
                        ;
                        lemma_dp_bound(mdl, gp, av, bv, i as int - 1, j as int - 1);
                        lemma_dp_bound(mdl, gp, av, bv, i as int - 1, j as int);
                        lemma_dp_bound(mdl, gp, av, bv, i as int, j as int - 1);
                        lemma_compare_bounded(mdl, av[i as int - 1], bv[j as int - 1],
                            MAX_SCORE_MAG as int);
                        assert(av[i as int - 1] == a@[i as int - 1]@);
                        assert(bv[j as int - 1] == b@[j as int - 1]@);
                        assert(cells@[(i as int - 1) * (cols as int) + (j as int - 1)] == dp(
                            mdl, gp, av, bv, i as int - 1, j as int - 1));
                        assert(cells@[(i as int - 1) * (cols as int) + j as int] == dp(
                            mdl, gp, av, bv, i as int - 1, j as int));
                        assert(cells@[i as int * (cols as int) + (j as int - 1)] == dp(
                            mdl, gp, av, bv, i as int, j as int - 1));
                    }
                    let diag = cells[row_base - cols + (j - 1)];
                    let up = cells[row_base - cols + j];
                    let left = cells[row_base + (j - 1)];
                    let cmp = scorer.compare(&a[i - 1], &b[j - 1]);
                    let cand_align = diag + cmp;
                    let cand_delete = up + gap_score;
                    let cand_insert = left + gap_score;
                    let mut best = cand_align;
                    if cand_delete > best {
                        best = cand_delete;
                    }
                    if cand_insert > best {
                        best = cand_insert;
                    }
                    v = best;
                    proof {
                        assert(v as int == dp(mdl, gp, av, bv, i as int, j as int));
                    }
                }
                let ghost pre = cells@;
                cells.push(v);
                proof {
                    let cc = cols as int;
                    assert forall|p: int, q: int|
                        0 <= p < i && 0 <= q < cc implies cells@[p * cc + q] == #[trigger] dp(
                        mdl, gp, av, bv, p, q) by {
                        assert(p * cc + q < i as int * cc) by (nonlinear_arith)
                            requires
                                0 <= p,
                                p + 1 <= i as int,
                                0 <= q,
                                q < cc,
                        ;
                        assert(cells@[p * cc + q] == pre[p * cc + q]);
                        assert(pre[p * cc + q] == dp(mdl, gp, av, bv, p, q));
                    }
                    assert forall|q: int|
                        0 <= q < j as int + 1 implies cells@[i as int * cc + q] == #[trigger] dp(
                        mdl, gp, av, bv, i as int, q) by {
                        if q < j as int {
                            assert(cells@[i as int * cc + q] == pre[i as int * cc + q]);
                            assert(pre[i as int * cc + q] == dp(mdl, gp, av, bv, i as int, q));
                        } else {
                            assert(cells@[i as int * cc + j as int] == v as int);
                        }
                    }
                }
                j = j + 1;
            }
            proof {
                let cc = cols as int;
                assert((i as int + 1) * cc == i as int * cc + cc) by (nonlinear_arith);
                assert forall|p: int, q: int|
                    0 <= p < i as int + 1 && 0 <= q < cc implies cells@[p * cc + q] == #[trigger] dp(
                    mdl, gp, av, bv, p, q) by {
                    if p == i as int {
                        assert(cells@[i as int * cc + q] == dp(mdl, gp, av, bv, i as int, q));
                    }
                }
            }
            i = i + 1;
        }
        proof {
            assert(cells@.len() == (n as int + 1) * (cols as int));
            assert(av.len() == n && bv.len() == m);
        }
        Ok(
            AlignmentMatrix {
                cells,
                cols,
                model: Ghost(mdl),
                gap: Ghost(gp),
                a_tokens: Ghost(av),
                b_tokens: Ghost(bv),
            },
        )
    }
}

} // verus!
