use std::collections::HashMap;

use nalgebra::DMatrix;
use termstats::corpus::Corpus;
use termstats::normalize::{
    build_classifier_frequency, build_dictionary, build_document_frequency_overall_frequency, idf,
    tf, Ratio, StatsError,
};
use termstats::table::{FrequencyTable, Vocabulary};

fn strings(terms: &[&str]) -> Vec<String> {
    terms.iter().map(|t| t.to_string()).collect()
}

fn table_as_map(table: &FrequencyTable) -> HashMap<String, f64> {
    table
        .terms()
        .iter()
        .zip(table.counts().iter())
        .map(|(t, c)| (t.clone(), *c as f64))
        .collect()
}

fn vocabulary_as_map(vocabulary: &Vocabulary) -> HashMap<String, f64> {
    vocabulary
        .terms()
        .iter()
        .enumerate()
        .map(|(i, t)| (t.clone(), i as f64))
        .collect()
}

fn ratio_value(r: Ratio) -> f64 {
    r.numerator as f64 / r.denominator as f64
}

fn corpus_of(rows: &[Vec<String>]) -> Corpus {
    let ncols = rows[0].len();
    let cells: Vec<String> = rows.iter().flat_map(|r| r.iter().cloned()).collect();
    Corpus::from_row_slice(rows.len(), ncols, &cells)
}

#[test]
fn test_build_dictionary() {
    let mut dictionary = Vocabulary::new();
    let document: Vec<String> = vec!["a".to_string(), "b".to_string()];
    let expected: HashMap<String, f64> = vec![("a".to_string(), 0.0), ("b".to_string(), 1.0)]
        .into_iter()
        .collect();
    build_dictionary(&mut dictionary, &document);
    assert_eq!(vocabulary_as_map(&dictionary), expected);
}

#[test]
fn test_build_document_frequency_overall_frequency() {
    let mut actual_overall_frequency = FrequencyTable::new();
    let document1: Vec<String> = strings(&["a", "a", "b", "c"]);
    let document2: Vec<String> = strings(&["a", "b", "c", "c"]);
    let expected_document_frequency1: HashMap<String, f64> =
        vec![("a".to_string(), 2.0), ("b".to_string(), 1.0), ("c".to_string(), 1.0)]
            .into_iter()
            .collect();
    let expected_document_frequency2: HashMap<String, f64> =
        vec![("a".to_string(), 1.0), ("b".to_string(), 1.0), ("c".to_string(), 2.0)]
            .into_iter()
            .collect();
    let expected_overall_frequency: HashMap<String, f64> =
        vec![("a".to_string(), 3.0), ("b".to_string(), 2.0), ("c".to_string(), 3.0)]
            .into_iter()
            .collect();
    let documents = vec![document1, document2];
    for (i, document) in documents.iter().enumerate() {
        let actual_document_frequency =
            build_document_frequency_overall_frequency(&mut actual_overall_frequency, document);
        if i == 0 {
            assert_eq!(table_as_map(&actual_document_frequency), expected_document_frequency1);
        }
        if i == 1 {
            assert_eq!(table_as_map(&actual_document_frequency), expected_document_frequency2);
            assert_eq!(table_as_map(&actual_overall_frequency), expected_overall_frequency);
        }
    }
}

#[test]
fn test_build_classifier_frequency() {
    let mut actual_overall_frequency = FrequencyTable::new();
    let expected_overall_frequency: HashMap<String, f64> = vec![
        ("a".to_string(), 3.0),
        ("big".to_string(), 1.0),
        ("red".to_string(), 1.0),
        ("dog".to_string(), 1.0),
        ("cat".to_string(), 1.0),
        ("small".to_string(), 1.0),
        ("blue".to_string(), 2.0),
        ("boobie".to_string(), 1.0),
    ]
    .into_iter()
    .collect();
    let expected_classifier_frequency: Vec<HashMap<String, f64>> = vec![
        vec![("a".to_string(), 1.0), ("blue".to_string(), 1.0), ("boobie".to_string(), 1.0)]
            .into_iter()
            .collect(),
        vec![
            ("a".to_string(), 2.0),
            ("cat".to_string(), 1.0),
            ("small".to_string(), 1.0),
            ("blue".to_string(), 1.0),
            ("big".to_string(), 1.0),
            ("red".to_string(), 1.0),
            ("dog".to_string(), 1.0),
        ]
        .into_iter()
        .collect(),
        vec![].into_iter().collect(),
    ];
    let document1: Vec<String> = strings(&["a", "big", "red", "dog"]);
    let document2: Vec<String> = strings(&["a", "small", "blue", "cat"]);
    let document3: Vec<String> = strings(&["a", "blue", "boobie"]);
    let documents_x = vec![document1, document2, document3];
    let classifiers_y: Vec<u8> = vec![2, 2, 1];
    let classifiers: Vec<u8> = vec![1, 2, 3];
    let mut classifier_frequency: Vec<FrequencyTable> =
        vec![FrequencyTable::new(), FrequencyTable::new(), FrequencyTable::new()];
    for (i, document) in documents_x.iter().enumerate() {
        let document_frequency =
            build_document_frequency_overall_frequency(&mut actual_overall_frequency, document);
        let result = build_classifier_frequency(
            &mut classifier_frequency,
            &classifiers,
            &classifiers_y[i],
            &document_frequency,
        );
        assert_eq!(result, Ok(()));
    }
    let actual: Vec<HashMap<String, f64>> = classifier_frequency.iter().map(table_as_map).collect();
    assert_eq!(actual, expected_classifier_frequency);
    assert_eq!(table_as_map(&actual_overall_frequency), expected_overall_frequency);
}

#[test]
fn test_tf() {
    let document1: Vec<String> = strings(&["a", "a", "b", "c"]);
    let document2: Vec<String> = strings(&["a", "b", "c", "c"]);
    let corpus = corpus_of(&[document1, document2]);
    let expected_tf: DMatrix<f64> = DMatrix::from_fn(2, 4, |i, j| {
        if i == 0 {
            if j == 0 {
                2.0 / 4.0
            } else if j == 1 {
                2.0 / 4.0
            } else if j == 2 {
                1.0 / 4.0
            } else if j == 3 {
                1.0 / 4.0
            } else {
                0.0
            }
        } else if i == 1 {
            if j == 0 {
                1.0 / 4.0
            } else if j == 1 {
                1.0 / 4.0
            } else if j == 2 {
                2.0 / 4.0
            } else if j == 3 {
                2.0 / 4.0
            } else {
                0.0
            }
        } else {
            0.0
        }
    });
    let actual_tf = DMatrix::from_fn(2, 4, |i, j| {
        ratio_value(tf(&corpus, i, corpus.cell(i, j)).unwrap())
    });
    assert_eq!(actual_tf, expected_tf);
}

#[test]
fn test_idf() {
    let document1: Vec<String> = strings(&["a", "a", "b", "c"]);
    let document2: Vec<String> = strings(&["a", "c", "c", "c"]);
    let corpus = corpus_of(&[document1, document2]);
    let mut df_index = FrequencyTable::new();
    df_index.add(&"a".to_string(), 2);
    df_index.add(&"b".to_string(), 1);
    df_index.add(&"c".to_string(), 2);
    let expected_idf: DMatrix<f64> = DMatrix::from_fn(2, 4, |i, j| {
        if i == 0 {
            if j == 2 {
                (2.0 as f64).ln()
            } else {
                0.0
            }
        } else {
            0.0
        }
    });
    let actual_idf = DMatrix::from_fn(2, 4, |i, j| {
        ratio_value(idf(corpus.cell(i, j), &corpus, &df_index).unwrap()).ln()
    });
    assert_eq!(actual_idf, expected_idf);
}

#[test]
fn vocabulary_keeps_indices_and_skips_known_terms() {
    let mut vocabulary = Vocabulary::new();
    build_dictionary(&mut vocabulary, &strings(&["b", "a", "b"]));
    build_dictionary(&mut vocabulary, &strings(&["c", "a", "d", "c"]));
    assert_eq!(vocabulary.terms(), &strings(&["b", "a", "c", "d"]));
    assert_eq!(vocabulary.index_of(&"c".to_string()), Some(2));
    assert_eq!(vocabulary.index_of(&"z".to_string()), None);
    assert_eq!(vocabulary.len(), 4);
}

#[test]
fn vocabulary_same_document_same_indices() {
    let mut first = Vocabulary::new();
    build_dictionary(&mut first, &strings(&["x", "y"]));
    let mut second = Vocabulary::new();
    build_dictionary(&mut second, &strings(&["x", "y"]));
    build_dictionary(&mut first, &strings(&["q", "x", "r"]));
    build_dictionary(&mut second, &strings(&["q", "x", "r"]));
    assert_eq!(first.terms(), second.terms());
    assert_eq!(first.index_of(&"r".to_string()), Some(3));
}

#[test]
fn empty_document_changes_nothing() {
    let mut vocabulary = Vocabulary::new();
    build_dictionary(&mut vocabulary, &strings(&["a"]));
    build_dictionary(&mut vocabulary, &Vec::new());
    assert_eq!(vocabulary.terms(), &strings(&["a"]));
    let mut overall = FrequencyTable::new();
    let document_frequency = build_document_frequency_overall_frequency(&mut overall, &Vec::new());
    assert_eq!(document_frequency.len(), 0);
    assert_eq!(overall.len(), 0);
}

#[test]
fn overall_frequency_does_not_depend_on_order() {
    let documents = vec![strings(&["a", "b"]), strings(&["b", "c", "b"]), strings(&["a"])];
    let mut forward = FrequencyTable::new();
    for d in documents.iter() {
        build_document_frequency_overall_frequency(&mut forward, d);
    }
    let mut backward = FrequencyTable::new();
    for d in documents.iter().rev() {
        build_document_frequency_overall_frequency(&mut backward, d);
    }
    assert_eq!(table_as_map(&forward), table_as_map(&backward));
    assert_eq!(forward.get(&"b".to_string()), Some(3));
}

#[test]
fn unknown_label_is_a_configuration_error() {
    let mut overall = FrequencyTable::new();
    let document_frequency =
        build_document_frequency_overall_frequency(&mut overall, &strings(&["a", "a"]));
    let mut classes = vec![FrequencyTable::new(), FrequencyTable::new()];
    let result = build_classifier_frequency(&mut classes, &vec![1, 2], &7, &document_frequency);
    assert_eq!(result, Err(StatsError::Configuration));
    assert_eq!(classes[0].len(), 0);
    assert_eq!(classes[1].len(), 0);
}

#[test]
fn class_counts_add_up_to_labelled_counts() {
    let documents = vec![strings(&["a", "b"]), strings(&["a", "a"]), strings(&["b"]), strings(&["a"])];
    let tags: Vec<u8> = vec![5, 9, 5, 4];
    let labels: Vec<u8> = vec![9, 5];
    let mut overall = FrequencyTable::new();
    let mut classes = vec![FrequencyTable::new(), FrequencyTable::new()];
    for (d, tag) in documents.iter().zip(tags.iter()) {
        let document_frequency = build_document_frequency_overall_frequency(&mut overall, d);
        let _ = build_classifier_frequency(&mut classes, &labels, tag, &document_frequency);
    }
    let a: u64 = classes.iter().map(|c| c.get(&"a".to_string()).unwrap_or(0)).sum();
    let b: u64 = classes.iter().map(|c| c.get(&"b".to_string()).unwrap_or(0)).sum();
    assert_eq!(a, 3);
    assert_eq!(b, 2);
    assert_eq!(overall.get(&"a".to_string()), Some(4));
    assert_eq!(classes[0].get(&"a".to_string()), Some(2));
    assert_eq!(classes[1].get(&"b".to_string()), Some(2));
}

#[test]
fn duplicate_label_goes_to_first_class_once() {
    let mut overall = FrequencyTable::new();
    let document_frequency = build_document_frequency_overall_frequency(&mut overall, &strings(&["x"]));
    let mut classes = vec![FrequencyTable::new(), FrequencyTable::new(), FrequencyTable::new()];
    let result = build_classifier_frequency(&mut classes, &vec![3, 1, 3], &3, &document_frequency);
    assert_eq!(result, Ok(()));
    assert_eq!(classes[0].get(&"x".to_string()), Some(1));
    assert_eq!(classes[2].len(), 0);
}

#[test]
fn term_frequencies_of_distinct_terms_sum_to_one() {
    let corpus = corpus_of(&[strings(&["a", "a", "b", "c", "d"])]);
    let mut total = 0.0;
    for t in ["a", "b", "c", "d"] {
        total += ratio_value(tf(&corpus, 0, &t.to_string()).unwrap());
    }
    assert!((total - 1.0f64).abs() < 1e-12);
}

#[test]
fn two_row_corpus_term_frequencies() {
    let corpus = corpus_of(&[strings(&["a", "a", "b", "c"]), strings(&["a", "b", "c", "c"])]);
    assert_eq!(tf(&corpus, 0, &"a".to_string()), Ok(Ratio { numerator: 2, denominator: 4 }));
    assert_eq!(ratio_value(tf(&corpus, 1, &"c".to_string()).unwrap()), 0.5);
    assert_eq!(tf(&corpus, 1, &"z".to_string()), Ok(Ratio { numerator: 0, denominator: 4 }));
}

#[test]
fn empty_row_term_frequency_is_an_arithmetic_error() {
    let corpus = Corpus::from_row_slice(2, 0, &Vec::new());
    assert_eq!(corpus.nrows(), 2);
    assert_eq!(tf(&corpus, 1, &"a".to_string()), Err(StatsError::Arithmetic));
}

#[test]
fn idf_of_term_in_every_document_is_zero() {
    let corpus = corpus_of(&[strings(&["a", "b"]), strings(&["a", "c"]), strings(&["a", "a"])]);
    let mut df = FrequencyTable::new();
    df.add(&"a".to_string(), 3);
    df.add(&"b".to_string(), 1);
    let r = idf(&"a".to_string(), &corpus, &df).unwrap();
    assert_eq!(r, Ratio { numerator: 3, denominator: 3 });
    assert_eq!(ratio_value(r).ln(), 0.0);
    assert_eq!(idf(&"b".to_string(), &corpus, &df), Ok(Ratio { numerator: 3, denominator: 1 }));
}

#[test]
fn idf_without_document_frequency_is_an_arithmetic_error() {
    let corpus = corpus_of(&[strings(&["a"]), strings(&["b"])]);
    let mut df = FrequencyTable::new();
    df.add(&"a".to_string(), 1);
    df.add(&"z".to_string(), 0);
    assert_eq!(idf(&"b".to_string(), &corpus, &df), Err(StatsError::Arithmetic));
    assert_eq!(idf(&"z".to_string(), &corpus, &df), Err(StatsError::Arithmetic));
}
