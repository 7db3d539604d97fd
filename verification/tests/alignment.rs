use sequences::AlignError;
use sequences::AlignmentResult;
use sequences::ScoreEntry;
use sequences::Scorer;
use sequences::Step;
use sequences::align;

fn seq_of(tokens: &[&str]) -> Vec<String> {
    let mut out: Vec<String> = Vec::new();
    for t in tokens {
        out.push((*t).to_string());
    }
    out
}

fn entry(x: &str, y: &str, score: i64) -> ScoreEntry {
    ScoreEntry { x: x.to_string(), y: y.to_string(), score }
}

/// The similarity metric as the caller derives it from the result's
/// integer ingredients.
fn similarity(res: &AlignmentResult) -> f64 {
    if res.num_correct == 0 {
        return -1f64;
    }
    let sim_align = if res.dis_correct == 0 {
        0f64
    } else {
        res.alignment_score as f64 / res.dis_correct as f64
    };
    let sim_significance = res.num_correct as f64 / res.steps.len() as f64;
    sim_align * sim_significance
}

#[test]
fn concrete_scenario() {
    let a = seq_of(&["A", "T", "C"]);
    let b = seq_of(&["A", "C"]);
    let res = align(&a, &b, 1, -1, -1, None).unwrap();
    assert_eq!(res.alignment_score, 1);
    assert_eq!(
        res.steps,
        vec![
            Step::Align { x: 0, y: 0 },
            Step::Delete { x: 1 },
            Step::Align { x: 2, y: 1 },
        ]
    );
    assert_eq!(
        res.alignments,
        vec![
            ("A".to_string(), "A".to_string()),
            ("T".to_string(), "-".to_string()),
            ("C".to_string(), "C".to_string()),
        ]
    );
    assert_eq!(res.num_correct, 2);
    assert_eq!(res.dis_correct, 2);
    let expected = (1f64 / 2f64) * (2f64 / 3f64);
    assert_eq!(similarity(&res), expected);
}

#[test]
fn determinism() {
    let a = seq_of(&["G", "A", "T", "T", "A"]);
    let b = seq_of(&["G", "C", "A", "T"]);
    let r1 = align(&a, &b, 2, -3, -2, None).unwrap();
    let r2 = align(&a, &b, 2, -3, -2, None).unwrap();
    assert_eq!(r1.steps, r2.steps);
    assert_eq!(r1.alignments, r2.alignments);
    assert_eq!(r1.alignment_score, r2.alignment_score);
    assert_eq!(r1.num_correct, r2.num_correct);
    assert_eq!(r1.dis_correct, r2.dis_correct);
    assert_eq!(similarity(&r1), similarity(&r2));
}

#[test]
fn step_coverage() {
    let a = seq_of(&["G", "A", "T", "T", "A"]);
    let b = seq_of(&["G", "C", "A", "T"]);
    let res = align(&a, &b, 1, -1, -1, None).unwrap();
    let mut xs: Vec<usize> = Vec::new();
    let mut ys: Vec<usize> = Vec::new();
    for step in &res.steps {
        match step {
            Step::Align { x, y } => {
                xs.push(*x);
                ys.push(*y);
            }
            Step::Delete { x } => xs.push(*x),
            Step::Insert { y } => ys.push(*y),
        }
    }
    assert_eq!(xs, vec![0, 1, 2, 3, 4]);
    assert_eq!(ys, vec![0, 1, 2, 3]);
}

#[test]
fn self_alignment() {
    let a = seq_of(&["x", "y", "z"]);
    let res = align(&a, &a, 1, -1, -1, None).unwrap();
    assert_eq!(res.alignment_score, 3);
    assert_eq!(
        res.steps,
        vec![
            Step::Align { x: 0, y: 0 },
            Step::Align { x: 1, y: 1 },
            Step::Align { x: 2, y: 2 },
        ]
    );
    assert_eq!(res.num_correct, 3);
    assert_eq!(res.dis_correct, 3);
    assert_eq!(similarity(&res), 1f64);
}

#[test]
fn table_symmetry() {
    let scorer = Scorer {
        table: vec![entry("A", "B", 5)],
        match_score: 1,
        mismatch_score: -1,
    };
    let a = "A".to_string();
    let b = "B".to_string();
    assert_eq!(scorer.compare(&a, &b), 5);
    assert_eq!(scorer.compare(&b, &a), 5);
    let fwd = align(&seq_of(&["A"]), &seq_of(&["B"]), 1, -1, -1, Some(vec![entry("A", "B", 5)]))
        .unwrap();
    let rev = align(&seq_of(&["B"]), &seq_of(&["A"]), 1, -1, -1, Some(vec![entry("A", "B", 5)]))
        .unwrap();
    assert_eq!(fwd.alignment_score, 5);
    assert_eq!(rev.alignment_score, 5);
}

#[test]
fn table_declared_order_wins() {
    let scorer = Scorer {
        table: vec![entry("A", "B", 5), entry("B", "A", 7)],
        match_score: 1,
        mismatch_score: -1,
    };
    let a = "A".to_string();
    let b = "B".to_string();
    assert_eq!(scorer.compare(&a, &b), 5);
    assert_eq!(scorer.compare(&b, &a), 7);
}

#[test]
fn table_first_entry_wins_on_duplicates() {
    let scorer = Scorer {
        table: vec![entry("A", "B", 5), entry("A", "B", 9)],
        match_score: 1,
        mismatch_score: -1,
    };
    let a = "A".to_string();
    let b = "B".to_string();
    assert_eq!(scorer.compare(&a, &b), 5);
}

#[test]
fn table_default_fallback() {
    let scorer = Scorer {
        table: vec![entry("A", "B", 5)],
        match_score: 1,
        mismatch_score: -1,
    };
    let a = "A".to_string();
    let c = "C".to_string();
    assert_eq!(scorer.compare(&a, &a), 1);
    assert_eq!(scorer.compare(&a, &c), -1);
}

#[test]
fn table_overrides_equal_tokens() {
    let res = align(&seq_of(&["A"]), &seq_of(&["A"]), 1, -1, -1, Some(vec![entry("A", "A", 4)]))
        .unwrap();
    assert_eq!(res.alignment_score, 4);
    assert_eq!(res.num_correct, 1);
    assert_eq!(res.dis_correct, 4);
    assert_eq!(similarity(&res), 1f64);
}

#[test]
fn empty_inputs_fail() {
    let empty: Vec<String> = Vec::new();
    let one = seq_of(&["a"]);
    assert_eq!(align(&empty, &one, 1, -1, -1, None).unwrap_err(), AlignError::InvalidInput);
    assert_eq!(align(&one, &empty, 1, -1, -1, None).unwrap_err(), AlignError::InvalidInput);
    assert_eq!(align(&empty, &empty, 1, -1, -1, None).unwrap_err(), AlignError::InvalidInput);
}

#[test]
fn error_message() {
    let err = AlignError::InvalidInput;
    assert_eq!(err.message(), "alignment requires non-empty sequences".to_string());
}

#[test]
fn no_match_sentinel() {
    let res = align(&seq_of(&["x"]), &seq_of(&["y"]), 1, -1, -1, None).unwrap();
    assert_eq!(res.num_correct, 0);
    assert_eq!(similarity(&res), -1f64);
}

#[test]
fn tie_break_align_over_insert() {
    let res = align(&seq_of(&["A"]), &seq_of(&["A", "A"]), 1, -1, -1, None).unwrap();
    assert_eq!(res.alignment_score, 0);
    assert_eq!(res.steps, vec![Step::Insert { y: 0 }, Step::Align { x: 0, y: 1 }]);
}

#[test]
fn tie_break_delete_over_insert() {
    let res = align(&seq_of(&["A"]), &seq_of(&["B"]), 1, -5, 0, None).unwrap();
    assert_eq!(res.alignment_score, 0);
    assert_eq!(res.steps, vec![Step::Insert { y: 0 }, Step::Delete { x: 0 }]);
}

#[test]
fn gaps_accumulate() {
    let res = align(&seq_of(&["A"]), &seq_of(&["A", "B", "C"]), 1, -1, -1, None).unwrap();
    assert_eq!(res.alignment_score, -1);
    assert_eq!(
        res.steps,
        vec![
            Step::Align { x: 0, y: 0 },
            Step::Insert { y: 1 },
            Step::Insert { y: 2 },
        ]
    );
    assert_eq!(
        res.alignments,
        vec![
            ("A".to_string(), "A".to_string()),
            ("-".to_string(), "B".to_string()),
            ("-".to_string(), "C".to_string()),
        ]
    );
    assert_eq!(res.num_correct, 1);
    assert_eq!(res.dis_correct, 1);
    let expected = (-1f64 / 1f64) * (1f64 / 3f64);
    assert_eq!(similarity(&res), expected);
}
