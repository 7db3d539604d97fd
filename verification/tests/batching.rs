use sequences::AlignError;
use sequences::align;
use sequences::align_set;

fn seq_of(tokens: &[&str]) -> Vec<String> {
    let mut out: Vec<String> = Vec::new();
    for t in tokens {
        out.push((*t).to_string());
    }
    out
}

#[test]
fn batch_completeness() {
    let s0 = seq_of(&["A", "T", "C"]);
    let s1 = seq_of(&["A", "C"]);
    let s2 = seq_of(&["T", "C"]);
    let collection = vec![s0.clone(), s1.clone(), s2.clone()];
    let out = align_set(&collection, 1, -1, -1, None).unwrap();
    assert_eq!(out.len(), 3);
    assert_eq!(out[0].0, (0, 1));
    assert_eq!(out[1].0, (0, 2));
    assert_eq!(out[2].0, (1, 2));
    let pairs = [(&s0, &s1), (&s0, &s2), (&s1, &s2)];
    for (t, (a, b)) in out.iter().zip(pairs.iter()) {
        let direct = align(a, b, 1, -1, -1, None).unwrap();
        assert_eq!(t.1.steps, direct.steps);
        assert_eq!(t.1.alignments, direct.alignments);
        assert_eq!(t.1.alignment_score, direct.alignment_score);
        assert_eq!(t.1.num_correct, direct.num_correct);
        assert_eq!(t.1.dis_correct, direct.dis_correct);
    }
}

#[test]
fn batch_pair_count() {
    let collection = vec![
        seq_of(&["a"]),
        seq_of(&["b"]),
        seq_of(&["c"]),
        seq_of(&["d"]),
        seq_of(&["e"]),
    ];
    let out = align_set(&collection, 1, -1, -1, None).unwrap();
    assert_eq!(out.len(), 10);
    for (t, entry) in out.iter().enumerate() {
        let (i, j) = entry.0;
        assert!(i < j && j < 5);
        if t > 0 {
            let (pi, pj) = out[t - 1].0;
            assert!(pi < i || (pi == i && pj < j));
        }
    }
}

#[test]
fn batch_empty_sequence_aborts() {
    let collection = vec![seq_of(&["a"]), Vec::new(), seq_of(&["b"])];
    assert_eq!(align_set(&collection, 1, -1, -1, None).unwrap_err(), AlignError::InvalidInput);
}

#[test]
fn batch_of_one_has_no_pairs() {
    let collection = vec![seq_of(&["a"])];
    let out = align_set(&collection, 1, -1, -1, None).unwrap();
    assert!(out.is_empty());
}

#[test]
fn batch_of_none_has_no_pairs() {
    let collection: Vec<Vec<String>> = Vec::new();
    let out = align_set(&collection, 1, -1, -1, None).unwrap();
    assert!(out.is_empty());
}

#[test]
fn batch_of_one_empty_sequence_aborts() {
    let collection: Vec<Vec<String>> = vec![Vec::new()];
    assert_eq!(align_set(&collection, 1, -1, -1, None).unwrap_err(), AlignError::InvalidInput);
}
