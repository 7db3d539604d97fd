//! The batch aligner: one alignment per unordered pair of a collection
//! of sequences, keyed by the pair's indices, all-or-nothing on failure.

use vstd::prelude::*;

use crate::aligner::AlignmentResult;
use crate::aligner::align_with_scorer;
use crate::aligner::is_align_result;
use crate::aligner::model_of;
use crate::errors::AlignError;
use crate::matrix::MAX_SEQ_LEN;
use crate::scoring::MAX_SCORE_MAG;
use crate::scoring::ScoreEntry;
use crate::scoring::ScoreModel;
use crate::scoring::Scorer;
use crate::scoring::token_views;

verus! {

/// The batch key order for `k` sequences, starting at pair `(i, j)`:
/// `(i, j), (i, j+1), ..., (i, k-1), (i+1, i+2), ...` up to
/// `(k-2, k-1)`.
pub open spec fn pair_keys_from(i: int, j: int, k: int) -> Seq<(int, int)>
    decreases k - i, k - j,
{
    if i < 0 || j < i + 1 || k <= i {
        Seq::empty()
    } else if j >= k {
        pair_keys_from(i + 1, i + 2, k)
    } else {
        seq![(i, j)] + pair_keys_from(i, j + 1, k)
    }
}

/// The key sequence of a batch output.
pub open spec fn keys_of(out: Seq<((usize, usize), AlignmentResult)>) -> Seq<(int, int)> {
    out.map_values(|e: ((usize, usize), AlignmentResult)| (e.0.0 as int, e.0.1 as int))
}

/// A batch entry is keyed by a valid pair `i < j` of indices and holds
/// exactly the alignment of the two sequences it names.
pub open spec fn entry_ok(
    e: ((usize, usize), AlignmentResult),
    m: ScoreModel,
    gap: int,
    seqs: Seq<Vec<String>>,
) -> bool {
    &&& e.0.0 < e.0.1
    &&& (e.0.1 as int) < seqs.len()
    &&& is_align_result(
        e.1,
        m,
        gap,
        token_views(seqs[e.0.0 as int]@),
        token_views(seqs[e.0.1 as int]@),
    )
}

/// Align every unordered pair of the collection under one scoring
/// configuration. Fails, with no partial output, exactly when some
/// sequence of the collection is empty.
pub fn align_set(
    sequences: &Vec<Vec<String>>,
    match_score: i64,
    mismatch_score: i64,
    gap_score: i64,
    similarity_matrix: Option<Vec<ScoreEntry>>,
) -> (r: Result<Vec<((usize, usize), AlignmentResult)>, AlignError>)
    requires
        forall|p: int| 0 <= p < sequences@.len() ==> (#[trigger] sequences@[p])@.len() <= MAX_SEQ_LEN,
        -MAX_SCORE_MAG <= match_score <= MAX_SCORE_MAG,
        -MAX_SCORE_MAG <= mismatch_score <= MAX_SCORE_MAG,
        -MAX_SCORE_MAG <= gap_score <= MAX_SCORE_MAG,
        (match similarity_matrix {
            Some(t) => forall|k: int|
                0 <= k < t@.len() ==> -MAX_SCORE_MAG <= (#[trigger] t@[k]).score <= MAX_SCORE_MAG,
            None => true,
        }),
    ensures
        match r {
            Ok(out) => {
                &&& forall|p: int|
                    0 <= p < sequences@.len() ==> (#[trigger] sequences@[p])@.len() > 0
                &&& keys_of(out@) == pair_keys_from(0, 1, sequences@.len() as int)
                &&& forall|t: int|
                    0 <= t < out@.len() ==> entry_ok(
                        #[trigger] out@[t],
                        model_of(similarity_matrix, match_score, mismatch_score),
                        gap_score as int,
                        sequences@,
                    )
            },
            Err(e) => {
                &&& exists|p: int|
                    0 <= p < sequences@.len() && (#[trigger] sequences@[p])@.len() == 0
                &&& e == AlignError::InvalidInput
            },
        },
{
    let kk = sequences.len();
    let mut p: usize = 0;
    while p < kk
        invariant
            p <= kk,
            kk == sequences@.len(),
            forall|q: int| 0 <= q < p ==> (#[trigger] sequences@[q])@.len() > 0,
        decreases kk - p,
    {
        if sequences[p].len() == 0 {
            return Err(AlignError::InvalidInput);
        }
        p = p + 1;
    }
    let ghost sm = similarity_matrix;
    let ghost mdl = model_of(similarity_matrix, match_score, mismatch_score);
    let table: Vec<ScoreEntry> = match similarity_matrix {
        Some(t) => t,
        None => Vec::new(),
    };
    let scorer = Scorer { table, match_score, mismatch_score };
    proof {
        assert(scorer@.table =~= mdl.table);
        assert(scorer@ == mdl);
        assert forall|t: int|
            0 <= t < scorer@.table.len() implies -MAX_SCORE_MAG <= (
        #[trigger] scorer@.table[t]).2 <= MAX_SCORE_MAG by {
            if sm is Some {
                assert(scorer@.table[t] == (
                    sm->Some_0@[t].x@,
                    sm->Some_0@[t].y@,
                    sm->Some_0@[t].score as int,
                ));
            }
        }
    }
    let ghost total = pair_keys_from(0, 1, kk as int);
    let mut out: Vec<((usize, usize), AlignmentResult)> = Vec::new();
    proof {
        assert(keys_of(out@) =~= Seq::<(int, int)>::empty());
        assert(keys_of(out@) + pair_keys_from(0, 1, kk as int) =~= total);
    }
    let mut i: usize = 0;
    while i < kk
        invariant
            i <= kk,
            kk == sequences@.len(),
            scorer@ == mdl,
            scorer@.bounded(MAX_SCORE_MAG as int),
            -MAX_SCORE_MAG <= gap_score <= MAX_SCORE_MAG,
            forall|q: int|
                0 <= q < kk ==> 0 < (#[trigger] sequences@[q])@.len() <= MAX_SEQ_LEN,
            total == pair_keys_from(0, 1, kk as int),
            keys_of(out@) + pair_keys_from(i as int, i as int + 1, kk as int) == total,
            forall|t: int| 0 <= t < out@.len() ==> entry_ok(#[trigger] out@[t], mdl, gap_score as int, sequences@),
        decreases kk - i,
    {
        let mut j: usize = i + 1;
        while j < kk
            invariant
                i < kk,
                i + 1 <= j <= kk,
                kk == sequences@.len(),
                scorer@ == mdl,
                scorer@.bounded(MAX_SCORE_MAG as int),
                -MAX_SCORE_MAG <= gap_score <= MAX_SCORE_MAG,
                forall|q: int|
                    0 <= q < kk ==> 0 < (#[trigger] sequences@[q])@.len() <= MAX_SEQ_LEN,
                total == pair_keys_from(0, 1, kk as int),
                keys_of(out@) + pair_keys_from(i as int, j as int, kk as int) == total,
                forall|t: int| 0 <= t < out@.len() ==> entry_ok(#[trigger] out@[t], mdl, gap_score as int, sequences@),
            decreases kk - j,
        {
            let res = match align_with_scorer(&sequences[i], &sequences[j], &scorer, gap_score) {
                Ok(res) => res,
                Err(e) => {
                    proof {
                        assert(false);
                    }
                    return Err(e);
                },
            };
            let ghost old_keys = keys_of(out@);
            out.push(((i, j), res));
            proof {
                assert(keys_of(out@) =~= old_keys.push((i as int, j as int)));
                assert(pair_keys_from(i as int, j as int, kk as int) == seq![(i as int, j as int)]
                    + pair_keys_from(i as int, j as int + 1, kk as int));
                assert(keys_of(out@) + pair_keys_from(i as int, j as int + 1, kk as int) =~= total);
            }
            j = j + 1;
        }
        proof {
            assert(pair_keys_from(i as int, kk as int, kk as int) == pair_keys_from(
                i as int + 1, i as int + 2, kk as int));
        }
        i = i + 1;
    }
    proof {
        assert(pair_keys_from(kk as int, kk as int + 1, kk as int) =~= Seq::<(int, int)>::empty());
        assert(keys_of(out@) =~= total);
    }
    Ok(out)
}

/// Batch count: the key order for `k` sequences holds one key per
/// unordered pair, `k * (k - 1) / 2` in all.
pub proof fn lemma_pair_keys_count(k: int)
    requires
        0 <= k,
    ensures
        2 * pair_keys_from(0, 1, k).len() == k * (k - 1),
{
    if k == 0 {
    } else {
        lemma_pair_keys_tail_count(0, k);
    }
}

/// Counting helper: from row `i` on, the key order holds one key per
/// unordered pair of `i .. k`.
proof fn lemma_pair_keys_tail_count(i: int, k: int)
    requires
        0 <= i <= k,
    ensures
        2 * pair_keys_from(i, i + 1, k).len() == (k - i) * (k - i - 1),
    decreases k - i,
{
    if i == k {
        assert((k - i) * (k - i - 1) == 0) by (nonlinear_arith)
            requires
                i == k,
        ;
    } else {
        lemma_pair_keys_row_count(i, i + 1, k);
        lemma_pair_keys_tail_count(i + 1, k);
        assert(2 * (k - i - 1) + (k - i - 1) * (k - i - 2) == (k - i) * (k - i - 1))
            by (nonlinear_arith);
    }
}

/// Counting helper: row `i` from column `j` holds `k - j` keys before
/// the following rows.
proof fn lemma_pair_keys_row_count(i: int, j: int, k: int)
    requires
        0 <= i < k,
        i + 1 <= j <= k,
    ensures
        pair_keys_from(i, j, k).len() == (k - j) + pair_keys_from(i + 1, i + 2, k).len(),
    decreases k - j,
{
    if j == k {
    } else {
        lemma_pair_keys_row_count(i, j + 1, k);
    }
}

/// Batch completeness: every unordered pair `x < y` of `0 .. k` appears
/// in the key order.
pub proof fn lemma_pair_keys_complete(k: int, x: int, y: int)
    requires
        0 <= x < y < k,
    ensures
        pair_keys_from(0, 1, k).contains((x, y)),
{
    lemma_pair_keys_from_contains(0, 1, k, x, y);
}

/// Completeness helper: a pair not yet passed by `(i, j)` appears in
/// the key order from `(i, j)` on.
proof fn lemma_pair_keys_from_contains(i: int, j: int, k: int, x: int, y: int)
    requires
        0 <= i,
        i + 1 <= j,
        i <= x < y < k,
        x > i || y >= j,
    ensures
        pair_keys_from(i, j, k).contains((x, y)),
    decreases k - i, k - j,
{
    if j >= k {
        lemma_pair_keys_from_contains(i + 1, i + 2, k, x, y);
    } else if x == i && y == j {
        assert(pair_keys_from(i, j, k)[0] == (x, y));
    } else {
        lemma_pair_keys_from_contains(i, j + 1, k, x, y);
        let rest = pair_keys_from(i, j + 1, k);
        let t = choose|t: int| 0 <= t < rest.len() && rest[t] == (x, y);
        assert(pair_keys_from(i, j, k)[t + 1] == (x, y));
    }
}

/// The key names a pair `x < y` within `0 .. k` that the walk starting
/// at `(i, j)` has not yet passed.
pub open spec fn key_in_range(e: (int, int), i: int, j: int, k: int) -> bool {
    &&& i <= e.0
    &&& e.0 < e.1
    &&& e.1 < k
    &&& e.0 > i || e.1 >= j
}

/// No pair is computed twice: the key order is strictly increasing
/// lexicographically, and every key is a pair `x < y` within `0 .. k`.
pub proof fn lemma_pair_keys_sorted(i: int, j: int, k: int)
    requires
        0 <= i,
        i + 1 <= j,
    ensures
        forall|t: int|
            0 <= t < pair_keys_from(i, j, k).len() ==> key_in_range(
                #[trigger] pair_keys_from(i, j, k)[t],
                i,
                j,
                k,
            ),
        forall|t1: int, t2: int|
            0 <= t1 < t2 < pair_keys_from(i, j, k).len() ==> lex_lt(
                #[trigger] pair_keys_from(i, j, k)[t1],
                #[trigger] pair_keys_from(i, j, k)[t2],
            ),
    decreases k - i, k - j,
{
    let s = pair_keys_from(i, j, k);
    if k <= i {
    } else if j >= k {
        lemma_pair_keys_sorted(i + 1, i + 2, k);
        let rest = pair_keys_from(i + 1, i + 2, k);
        assert forall|t: int| 0 <= t < s.len() implies key_in_range(#[trigger] s[t], i, j, k) by {
            assert(s[t] == rest[t]);
            assert(key_in_range(rest[t], i + 1, i + 2, k));
        }
        assert forall|t1: int, t2: int| 0 <= t1 < t2 < s.len() implies lex_lt(
            #[trigger] s[t1],
            #[trigger] s[t2],
        ) by {
            assert(s[t1] == rest[t1]);
            assert(s[t2] == rest[t2]);
        }
    } else {
        lemma_pair_keys_sorted(i, j + 1, k);
        let rest = pair_keys_from(i, j + 1, k);
        assert forall|t: int| 0 <= t < s.len() implies key_in_range(#[trigger] s[t], i, j, k) by {
            if t == 0 {
                assert(s[0] == (i, j));
            } else {
                assert(s[t] == rest[t - 1]);
                assert(key_in_range(rest[t - 1], i, j + 1, k));
            }
        }
        assert forall|t1: int, t2: int| 0 <= t1 < t2 < s.len() implies lex_lt(
            #[trigger] s[t1],
            #[trigger] s[t2],
        ) by {
            assert(s[t2] == rest[t2 - 1]);
            assert(key_in_range(rest[t2 - 1], i, j + 1, k));
            if t1 == 0 {
                assert(s[0] == (i, j));
            } else {
                assert(s[t1] == rest[t1 - 1]);
            }
        }
    }
}

/// Strict lexicographic order on index pairs.
pub open spec fn lex_lt(p: (int, int), q: (int, int)) -> bool {
    p.0 < q.0 || (p.0 == q.0 && p.1 < q.1)
}

} // verus!
