//! The scoring model: an integer compatibility score for any two tokens,
//! given by an optional pairwise override table with a default
//! match/mismatch rule as fallback.

use vstd::prelude::*;

verus! {

/// Largest magnitude accepted for any configured score; keeps every sum
/// that the alignment accumulates within `i64`.
pub const MAX_SCORE_MAG: i64 = 0x100_0000_0000;

/// One entry of a similarity table: an ordered pair of token
/// representations and the score it maps to.
pub struct ScoreEntry {
    pub x: String,
    pub y: String,
    pub score: i64,
}

/// Mathematical model of a scoring configuration: a sequence of table
/// entries `(x, y, score)` plus the two default scores.
pub struct ScoreModel {
    pub table: Seq<(Seq<char>, Seq<char>, int)>,
    pub match_score: int,
    pub mismatch_score: int,
}

/// Score of the first entry whose key, in declared order, is `(x, y)`.
pub open spec fn table_lookup(
    table: Seq<(Seq<char>, Seq<char>, int)>,
    x: Seq<char>,
    y: Seq<char>,
) -> Option<int>
    decreases table.len(),
{
    if table.len() == 0 {
        None
    } else if table[0].0 == x && table[0].1 == y {
        Some(table[0].2)
    } else {
        table_lookup(table.drop_first(), x, y)
    }
}

impl ScoreModel {
    /// Compatibility score of two tokens: the table entry for `(x, y)`,
    /// else the entry for `(y, x)`, else the default rule.
    pub open spec fn compare(self, x: Seq<char>, y: Seq<char>) -> int {
        match table_lookup(self.table, x, y) {
            Some(s) => s,
            None => match table_lookup(self.table, y, x) {
                Some(s) => s,
                None => if x == y {
                    self.match_score
                } else {
                    self.mismatch_score
                },
            },
        }
    }

    /// Every score this model can return has magnitude at most `c`.
    pub open spec fn bounded(self, c: int) -> bool {
        &&& forall|k: int| 0 <= k < self.table.len() ==> -c <= (#[trigger] self.table[k]).2 <= c
        &&& -c <= self.match_score <= c
        &&& -c <= self.mismatch_score <= c
    }
}

/// The sequences of characters that a sequence of tokens spells.
pub open spec fn token_views(s: Seq<String>) -> Seq<Seq<char>> {
    s.map_values(|t: String| t@)
}

/// Scoring configuration as the caller supplies it: an override table
/// (possibly empty) and the two default scores.
pub struct Scorer {
    pub table: Vec<ScoreEntry>,
    pub match_score: i64,
    pub mismatch_score: i64,
}

impl View for Scorer {
    type V = ScoreModel;

    open spec fn view(&self) -> ScoreModel {
        ScoreModel {
            table: self.table@.map_values(|e: ScoreEntry| (e.x@, e.y@, e.score as int)),
            match_score: self.match_score as int,
            mismatch_score: self.mismatch_score as int,
        }
    }
}

impl Scorer {
    /// First table entry matching `(x, y)` in declared order, if any.
    fn lookup(&self, x: &String, y: &String) -> (r: Option<i64>)
        ensures
            match r {
                Some(v) => table_lookup(self@.table, x@, y@) == Some(v as int),
                None => table_lookup(self@.table, x@, y@) is None,
            },
    {
        let ghost model = self@.table;
        proof {
            assert(model.skip(0) =~= model);
        }
        let mut i: usize = 0;
        while i < self.table.len()
            invariant
                i <= self.table.len(),
                model == self@.table,
                model.len() == self.table.len(),
                table_lookup(model, x@, y@) == table_lookup(model.skip(i as int), x@, y@),
            decreases self.table.len() - i,
        {
            let e = &self.table[i];
            proof {
                assert(model.skip(i as int)[0] == model[i as int]);
            }
            if e.x == *x && e.y == *y {
                return Some(e.score);
            }
            proof {
                assert(model.skip(i as int).drop_first() =~= model.skip(i as int + 1));
            }
            i = i + 1;
        }
        proof {
            assert(model.skip(self.table.len() as int) =~= Seq::<(Seq<char>, Seq<char>, int)>::empty());
        }
        None
    }

    /// Compatibility score of two tokens under this configuration.
    pub fn compare(&self, x: &String, y: &String) -> (r: i64)
        ensures
            r as int == self@.compare(x@, y@),
    {
        match self.lookup(x, y) {
            Some(s) => s,
            None => match self.lookup(y, x) {
                Some(s) => s,
                None => if *x == *y {
                    self.match_score
                } else {
                    self.mismatch_score
                },
            },
        }
    }
}

/// A table lookup that found a score within magnitude bounds returns a
/// score within those bounds.
pub proof fn lemma_lookup_bounded(
    table: Seq<(Seq<char>, Seq<char>, int)>,
    x: Seq<char>,
    y: Seq<char>,
    c: int,
)
    requires
        forall|k: int| 0 <= k < table.len() ==> -c <= (#[trigger] table[k]).2 <= c,
        table_lookup(table, x, y) is Some,
    ensures
        -c <= table_lookup(table, x, y)->Some_0 <= c,
    decreases table.len(),
{
    if table.len() == 0 {
    } else if table[0].0 == x && table[0].1 == y {
        assert(-c <= table[0].2 <= c);
    } else {
        assert forall|k: int| 0 <= k < table.drop_first().len() implies -c <= (#[trigger] table.drop_first()[k]).2 <= c by {
            assert(table.drop_first()[k] == table[k + 1]);
        }
        lemma_lookup_bounded(table.drop_first(), x, y, c);
    }
}

/// A bounded model only returns scores within its bound.
pub proof fn lemma_compare_bounded(m: ScoreModel, x: Seq<char>, y: Seq<char>, c: int)
    requires
        m.bounded(c),
    ensures
        -c <= m.compare(x, y) <= c,
{
    if table_lookup(m.table, x, y) is Some {
        lemma_lookup_bounded(m.table, x, y, c);
    } else if table_lookup(m.table, y, x) is Some {
        lemma_lookup_bounded(m.table, y, x, c);
    }
}

/// A table entry for `(x, y)` is honored identically whether the query
/// reads `(x, y)` or `(y, x)`, provided the reversed key has no entry of
/// its own to shadow it.
pub proof fn lemma_table_lookup_symmetry(m: ScoreModel, x: Seq<char>, y: Seq<char>, v: int)
    requires
        table_lookup(m.table, x, y) == Some(v),
        table_lookup(m.table, y, x) is None || x == y,
    ensures
        m.compare(x, y) == v,
        m.compare(y, x) == v,
{
}

} // verus!
