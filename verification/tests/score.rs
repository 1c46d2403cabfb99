use blaise::{bh_score, bh_score_many, calculate_ngrams, Distribution, Frequency, NgramError, Score};

fn halves() -> Distribution<f64> {
    Distribution::from_weights(vec![(b"ab".to_vec(), 0.5), (b"ba".to_vec(), 0.5)])
}

fn probabilities(dist: &Distribution<Frequency>) -> Distribution<f64> {
    let mut pairs = Vec::new();
    for i in 0..dist.len() {
        let f = dist.weight_at(i).unwrap();
        pairs.push((dist.gram_at(i).unwrap().to_vec(), f.count as f64 / f.total as f64));
    }
    Distribution::from_weights(pairs)
}

fn value(score: &Score, reference: &Distribution<f64>) -> f64 {
    match score.terms(reference) {
        None => f64::INFINITY,
        Some(terms) => {
            let mut coefficient = 0.0;
            for (f, weight) in terms {
                coefficient += ((f.count as f64 * weight) / f.total as f64).sqrt();
            }
            -coefficient.ln()
        }
    }
}

#[test]
fn score_without_overlap_is_infinite() {
    let reference = halves();
    let score = bh_score(b"xy", 2, &reference).unwrap();
    assert_eq!(score, Score::Infinite);
    assert_eq!(value(&score, &reference), f64::INFINITY);
}

#[test]
fn score_of_short_text_is_infinite() {
    let reference = halves();
    assert_eq!(bh_score(b"a", 2, &reference), Ok(Score::Infinite));
    assert_eq!(bh_score(b"", 2, &reference), Ok(Score::Infinite));
    assert_eq!(bh_score(b"", 1, &reference), Ok(Score::Infinite));
}

#[test]
fn score_against_empty_reference_is_infinite() {
    let reference: Distribution<f64> = Distribution::new();
    assert_eq!(bh_score(b"abab", 2, &reference), Ok(Score::Infinite));
}

#[test]
fn score_refuses_zero_width() {
    let reference = halves();
    assert_eq!(bh_score(b"abab", 0, &reference), Err(NgramError::InvalidArgument));
    assert_eq!(bh_score(b"", 0, &reference), Err(NgramError::InvalidArgument));
}

#[test]
fn score_counts_matching_windows_only() {
    let reference = halves();
    let score = bh_score(b"abxab", 2, &reference).unwrap();
    let terms = match &score {
        Score::Finite(terms) => terms,
        Score::Infinite => panic!("two windows match"),
    };
    assert_eq!(terms.len(), 1);
    assert_eq!(terms.get(b"ab"), Some(&Frequency { count: 2, total: 2 }));
    assert_eq!(terms.get(b"bx"), None);
    let expected = -(0.5f64.sqrt()).ln();
    assert!((value(&score, &reference) - expected).abs() < 1e-12);
    assert!((value(&score, &reference) - 0.34657359027997264).abs() < 1e-12);
}

#[test]
fn score_of_text_with_both_grams() {
    let reference = halves();
    let score = bh_score(b"abab", 2, &reference).unwrap();
    let terms = match &score {
        Score::Finite(terms) => terms,
        Score::Infinite => panic!("every window matches"),
    };
    assert_eq!(terms.len(), 2);
    assert_eq!(terms.get(b"ab"), Some(&Frequency { count: 2, total: 3 }));
    assert_eq!(terms.get(b"ba"), Some(&Frequency { count: 1, total: 3 }));
    let coefficient = (2.0f64 / 3.0 * 0.5).sqrt() + (1.0f64 / 3.0 * 0.5).sqrt();
    assert!((value(&score, &reference) + coefficient.ln()).abs() < 1e-12);
    assert!((value(&score, &reference) - 0.014506147594484509).abs() < 1e-9);
}

#[test]
fn score_ignores_reference_keys_of_other_widths() {
    let reference = Distribution::from_weights(vec![
        (b"a".to_vec(), 0.25f64),
        (b"ab".to_vec(), 0.5),
        (b"aba".to_vec(), 0.25),
    ]);
    let score = bh_score(b"abab", 2, &reference).unwrap();
    match &score {
        Score::Finite(terms) => {
            assert_eq!(terms.len(), 1);
            assert_eq!(terms.get(b"ab"), Some(&Frequency { count: 2, total: 2 }));
        }
        Score::Infinite => panic!("two windows match"),
    }
}

#[test]
fn score_against_own_extraction_is_zero() {
    for (text, n) in [
        (&b"abab"[..], 2usize),
        (&b"aaa"[..], 1),
        (&b"the quick brown fox jumps over the lazy dog"[..], 3),
        (&b"mississippi"[..], 1),
        (&b"x"[..], 1),
    ] {
        let extraction = calculate_ngrams(text, n).unwrap();
        let score = bh_score(text, n, &extraction).unwrap();
        match &score {
            Score::Finite(terms) => assert_eq!(*terms, extraction),
            Score::Infinite => panic!("a text matches its own n-grams"),
        }
        let reference = probabilities(&extraction);
        assert!(value(&score, &reference).abs() < 1e-9);
    }
}

#[test]
fn score_does_not_read_the_weights() {
    let floats = halves();
    let units = Distribution::from_weights(vec![(b"ab".to_vec(), ()), (b"ba".to_vec(), ())]);
    for text in [&b"abab"[..], b"xy", b"abxab", b"a", b"bababa"] {
        assert_eq!(bh_score(text, 2, &floats), bh_score(text, 2, &units));
    }
}

#[test]
fn score_is_deterministic() {
    let reference = halves();
    let first = bh_score(b"abbabaab", 2, &reference).unwrap();
    let second = bh_score(b"abbabaab", 2, &reference).unwrap();
    assert_eq!(first, second);
    assert_eq!(value(&first, &reference).to_bits(), value(&second, &reference).to_bits());
}

#[test]
fn score_many_scores_each_text_in_order() {
    let reference = halves();
    let texts = vec![b"abab".to_vec(), b"xy".to_vec(), b"abxab".to_vec()];
    let scores = bh_score_many(&texts, 2, &reference).unwrap();
    assert_eq!(scores.len(), 3);
    for (text, score) in texts.iter().zip(scores.iter()) {
        assert_eq!(*score, bh_score(text, 2, &reference).unwrap());
    }
    assert!(matches!(scores[0], Score::Finite(_)));
    assert_eq!(scores[1], Score::Infinite);
    assert!(matches!(scores[2], Score::Finite(_)));
    assert!((value(&scores[0], &reference) - 0.014506147594484509).abs() < 1e-9);
    assert_eq!(value(&scores[1], &reference), f64::INFINITY);
    assert!((value(&scores[2], &reference) - 0.34657359027997264).abs() < 1e-12);
}

#[test]
fn score_many_follows_a_reordering_of_the_texts() {
    let reference = halves();
    let texts = vec![b"abab".to_vec(), b"xy".to_vec(), b"abxab".to_vec(), b"b".to_vec()];
    let scores = bh_score_many(&texts, 2, &reference).unwrap();
    let order = [2usize, 0, 3, 1];
    let shuffled_texts: Vec<Vec<u8>> = order.iter().map(|&i| texts[i].clone()).collect();
    let shuffled = bh_score_many(&shuffled_texts, 2, &reference).unwrap();
    let mut restored: Vec<Option<&Score>> = vec![None; texts.len()];
    for (j, &i) in order.iter().enumerate() {
        assert_eq!(shuffled[j], scores[i]);
        restored[i] = Some(&shuffled[j]);
    }
    for (i, score) in scores.iter().enumerate() {
        assert_eq!(restored[i], Some(score));
    }
}

#[test]
fn score_many_refuses_zero_width_for_the_whole_batch() {
    let reference = halves();
    let texts = vec![b"abab".to_vec(), b"xy".to_vec()];
    assert_eq!(bh_score_many(&texts, 0, &reference), Err(NgramError::InvalidArgument));
    assert_eq!(bh_score_many(&[], 0, &reference), Err(NgramError::InvalidArgument));
}

#[test]
fn score_many_of_no_texts_is_empty() {
    let reference = halves();
    assert_eq!(bh_score_many(&[], 2, &reference), Ok(Vec::new()));
}

#[test]
fn score_terms_add_up_to_the_matched_total() {
    let reference =
        Distribution::from_weights(vec![(b"th".to_vec(), 1u8), (b"he".to_vec(), 1), (b"qu".to_vec(), 1)]);
    let text = b"the quick brown fox jumps over the lazy dog then";
    let score = bh_score(text, 2, &reference).unwrap();
    let terms = match &score {
        Score::Finite(terms) => terms,
        Score::Infinite => panic!("some windows match"),
    };
    let matching = text.windows(2).filter(|w| reference.contains_key(w)).count();
    assert_eq!(matching, 7);
    let mut sum = 0;
    for i in 0..terms.len() {
        let f = terms.weight_at(i).unwrap();
        assert_eq!(f.total, matching);
        sum += f.count;
    }
    assert_eq!(sum, matching);
    assert_eq!(terms.get(b"th"), Some(&Frequency { count: 3, total: 7 }));
    assert_eq!(terms.get(b"he"), Some(&Frequency { count: 3, total: 7 }));
    assert_eq!(terms.get(b"qu"), Some(&Frequency { count: 1, total: 7 }));
}

#[test]
fn terms_pair_each_frequency_with_its_weight() {
    let reference = Distribution::from_weights(vec![(b"ab".to_vec(), 0.25f64), (b"ba".to_vec(), 0.75)]);
    let score = bh_score(b"abab", 2, &reference).unwrap();
    let terms = score.terms(&reference).unwrap();
    assert_eq!(
        terms,
        vec![
            (Frequency { count: 2, total: 3 }, &0.25),
            (Frequency { count: 1, total: 3 }, &0.75),
        ]
    );
}

#[test]
fn terms_of_the_infinite_score_are_none() {
    let reference = halves();
    assert_eq!(Score::Infinite.terms(&reference), None);
    let score = bh_score(b"zz", 2, &reference).unwrap();
    assert_eq!(score.terms(&reference), None);
}

#[test]
fn terms_leave_out_grams_that_another_reference_lacks() {
    let reference = halves();
    let other = Distribution::from_weights(vec![(b"ba".to_vec(), 7u8), (b"zz".to_vec(), 9)]);
    let score = bh_score(b"abab", 2, &reference).unwrap();
    assert_eq!(score.terms(&other), Some(vec![(Frequency { count: 1, total: 3 }, &7)]));
    let nothing: Distribution<u8> = Distribution::new();
    assert_eq!(score.terms(&nothing), Some(Vec::new()));
}

#[test]
fn terms_of_a_text_against_itself_are_squares() {
    let text = b"she sells sea shells by the sea shore";
    let extraction = calculate_ngrams(text, 2).unwrap();
    let score = bh_score(text, 2, &extraction).unwrap();
    let terms = score.terms(&extraction).unwrap();
    assert_eq!(terms.len(), extraction.len());
    let mut sum = 0;
    for (frequency, weight) in terms {
        assert_eq!(frequency, *weight);
        assert_eq!(frequency.total, text.len() - 1);
        sum += frequency.count;
    }
    assert_eq!(sum, text.len() - 1);
}
