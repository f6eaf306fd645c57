use naive_bayes::order::is_vocabulary;
use naive_bayes::{
    dense_line, encode, from_dense, header_line, prepare_word, read_dataset, read_vocab,
    rows_fit, to_dense, train, CondProbTable, FormatError, PresenceWalk, Prob, ProbError, Row,
};

fn lines(ls: &[&str]) -> Vec<String> {
    ls.iter().map(|s| s.to_string()).collect()
}

fn words(ws: &[&str]) -> Vec<String> {
    ws.iter().map(|s| s.to_string()).collect()
}

fn prob_f64(p: Prob) -> f64 {
    p.num as f64 / p.den as f64
}

fn score(table: &CondProbTable, class: bool, features: &Vec<usize>) -> f64 {
    let mut sum = prob_f64(table.p_cd(class).unwrap()).ln();
    let mut walk = PresenceWalk::new(features, table.vocab_len());
    while let Some((i, present)) = walk.next_position() {
        sum += prob_f64(table.p_x_cd(class, present, i).unwrap()).ln();
    }
    sum
}

#[test]
fn prepare_word_strips_punctuation_and_non_ascii() {
    assert_eq!(prepare_word("Héllo,"), "Hllo");
    assert_eq!(prepare_word("don't"), "dont");
    assert_eq!(prepare_word("a1-b2"), "a1b2");
    assert_eq!(prepare_word("!!!"), "");
    assert_eq!(prepare_word(""), "");
}

#[test]
fn vocabulary_is_sorted_and_unique() {
    let corpus = lines(&["Zeta beta, beta! 1", "alpha zeta 0", "... 1", "Beta 0"]);
    let v = read_vocab(&corpus);
    assert_eq!(v, words(&["Beta", "Zeta", "alpha", "beta", "zeta"]));
    for pair in v.windows(2) {
        assert!(pair[0] < pair[1]);
    }
    assert!(is_vocabulary(&v));
}

#[test]
fn vocabulary_excludes_class_token_only() {
    let v = read_vocab(&lines(&["x y 1", "", "solo", "1 2 3"]));
    assert_eq!(v, words(&["1", "2", "x", "y"]));
}

#[test]
fn vocabulary_of_empty_corpus_is_empty() {
    assert!(read_vocab(&Vec::new()).is_empty());
}

#[test]
fn whitespace_of_every_kind_separates_tokens() {
    let v = read_vocab(&lines(&["one\ttwo\u{a0}three\u{3000}four  1"]));
    assert_eq!(v, words(&["four", "one", "three", "two"]));
}

#[test]
fn is_vocabulary_rejects_unsorted_and_duplicates() {
    assert!(is_vocabulary(&words(&["a", "b", "c"])));
    assert!(!is_vocabulary(&words(&["b", "a"])));
    assert!(!is_vocabulary(&words(&["a", "a"])));
    assert!(is_vocabulary(&Vec::new()));
}

#[test]
fn encoded_features_are_sorted_unique_and_in_range() {
    let vocab = words(&["bad", "good", "ugly"]);
    let row = encode("ugly good, GOOD bad good ugly 1", &vocab).unwrap();
    assert_eq!(row, Row { features: vec![0, 1, 2], class: true });
    let row = encode("ugly good 0", &vocab).unwrap();
    assert_eq!(row.features, vec![1, 2]);
    assert!(!row.class);
    assert!(row.features.iter().all(|&i| i < vocab.len()));
}

#[test]
fn out_of_vocabulary_line_has_no_features() {
    let vocab = words(&["bad", "good"]);
    let row = encode("nothing here matters 1", &vocab).unwrap();
    assert_eq!(row, Row { features: vec![], class: true });
    let row = encode("0", &vocab).unwrap();
    assert_eq!(row, Row { features: vec![], class: false });
}

#[test]
fn unknown_class_token_is_a_format_error() {
    let vocab = words(&["bad", "good"]);
    assert_eq!(encode("good 2", &vocab), None);
    assert_eq!(encode("", &vocab), None);
    assert_eq!(encode("good 10", &vocab), None);
    let r = read_dataset(&lines(&["good 1", "bad 0", "good 2", "x"]), &vocab);
    assert_eq!(r, Err(FormatError { line: 3 }));
    let r = read_dataset(&lines(&["good 2"]), &vocab);
    assert_eq!(r, Err(FormatError { line: 1 }));
    let r = read_dataset(&lines(&["good 1", "   "]), &vocab);
    assert_eq!(r, Err(FormatError { line: 2 }));
}

#[test]
fn re_encoding_gives_the_same_row() {
    let vocab = words(&["bad", "good", "ugly"]);
    let line = "good bad, ugly? good 0";
    assert_eq!(encode(line, &vocab), encode(line, &vocab));
}

#[test]
fn training_counts_scenario() {
    let corpus = lines(&["good good 1", "bad 0"]);
    let vocab = read_vocab(&corpus);
    assert_eq!(vocab, words(&["bad", "good"]));
    let data = read_dataset(&corpus, &vocab).unwrap();
    assert_eq!(data[0], Row { features: vec![1], class: true });
    assert_eq!(data[1], Row { features: vec![0], class: false });
    assert!(rows_fit(&data, vocab.len()));
    let table = CondProbTable::from_data(&data, vocab.len());
    assert_eq!(table.count(true, 1), 1);
    assert_eq!(table.count(false, 0), 1);
    assert_eq!(table.count(true, 0), 0);
    assert_eq!(table.count(false, 1), 0);
    assert_eq!(table.n_rows(), 2);
    assert_eq!(table.p_cd_count(true), 1);
    assert_eq!(table.p_cd_count(false), 1);
    assert_eq!(table.p_cd(true), Ok(Prob { num: 1, den: 2 }));
    assert_eq!(table.p_cd(false), Ok(Prob { num: 1, den: 2 }));
}

#[test]
fn priors_sum_to_one() {
    let vocab = words(&["a", "b"]);
    let data = read_dataset(&lines(&["a 1", "b 1", "a b 0"]), &vocab).unwrap();
    let table = CondProbTable::from_data(&data, 2);
    let t = table.p_cd(true).unwrap();
    let f = table.p_cd(false).unwrap();
    assert_eq!((t.num, t.den, f.num, f.den), (2, 3, 1, 3));
    assert_eq!(t.num + f.num, t.den);
    assert!((prob_f64(t) + prob_f64(f) - 1.0).abs() < 1e-12);
}

#[test]
fn smoothed_probabilities_exact_values() {
    let vocab = words(&["a", "b", "c"]);
    let corpus = lines(&["a b 1", "a 1", "c 1", "b 0"]);
    let data = read_dataset(&corpus, &vocab).unwrap();
    let table = CondProbTable::from_data(&data, 3);
    // a in true: present in 2 of 3 rows
    assert_eq!(table.p_x_cd(true, true, 0), Ok(Prob { num: 3, den: 5 }));
    assert_eq!(table.p_x_cd(true, false, 0), Ok(Prob { num: 2, den: 5 }));
    // a never present in false: flat prior either way
    assert_eq!(table.p_x_cd(false, true, 0), Ok(Prob { num: 1, den: 2 }));
    assert_eq!(table.p_x_cd(false, false, 0), Ok(Prob { num: 1, den: 2 }));
    // b in false: present in every row of the class
    assert_eq!(table.p_x_cd(false, true, 1), Ok(Prob { num: 2, den: 3 }));
    assert_eq!(table.p_x_cd(false, false, 1), Ok(Prob { num: 1, den: 3 }));
}

#[test]
fn smoothed_probabilities_lie_in_unit_interval() {
    let vocab = words(&["a", "b", "c"]);
    let corpus = lines(&["a b 1", "a 1", "c 1", "b 0", "a b c 0"]);
    let data = read_dataset(&corpus, &vocab).unwrap();
    let table = CondProbTable::from_data(&data, 3);
    for class in [true, false] {
        for present in [true, false] {
            for i in 0..3 {
                let p = table.p_x_cd(class, present, i).unwrap();
                assert!(p.num > 0 && p.num <= p.den);
            }
        }
    }
}

#[test]
fn missing_class_is_degenerate() {
    let vocab = words(&["a"]);
    let data = read_dataset(&lines(&["a 1"]), &vocab).unwrap();
    let table = CondProbTable::from_data(&data, 1);
    assert_eq!(table.p_x_cd(false, true, 0), Err(ProbError::DegenerateClass { class: false }));
    assert_eq!(table.p_x_cd(true, true, 0), Ok(Prob { num: 2, den: 3 }));
    let empty = CondProbTable::from_data(&Vec::new(), 1);
    assert_eq!(empty.p_cd(true), Err(ProbError::NoRows));
    assert_eq!(empty.p_x_cd(true, false, 0), Err(ProbError::DegenerateClass { class: true }));
}

#[test]
fn rows_fit_checks_order_and_range() {
    let ok = vec![Row { features: vec![0, 2], class: true }];
    assert!(rows_fit(&ok, 3));
    assert!(!rows_fit(&ok, 2));
    let dup = vec![Row { features: vec![1, 1], class: false }];
    assert!(!rows_fit(&dup, 3));
}

#[test]
fn dense_round_trip() {
    let f = vec![1, 3, 4];
    let d = to_dense(&f, 6);
    assert_eq!(d, vec![false, true, false, true, true, false]);
    assert_eq!(from_dense(&d), f);
    assert_eq!(from_dense(&to_dense(&vec![], 3)), Vec::<usize>::new());
}

#[test]
fn walk_flags_every_position() {
    let f = vec![0, 2];
    let mut w = PresenceWalk::new(&f, 4);
    let mut seen = vec![];
    while let Some(step) = w.next_position() {
        seen.push(step);
    }
    assert_eq!(seen, vec![(0, true), (1, false), (2, true), (3, false)]);
    assert_eq!(w.next_position(), None);
}

#[test]
fn dump_lines() {
    assert_eq!(header_line(&words(&["bad", "good"])), "bad,good,");
    assert_eq!(header_line(&Vec::new()), "");
    let row = Row { features: vec![1], class: true };
    assert_eq!(dense_line(&row, 3), "0,1,0,1");
    let row = Row { features: vec![], class: false };
    assert_eq!(dense_line(&row, 2), "0,0,0");
    assert_eq!(dense_line(&row, 0), "0");
}

#[test]
fn classifying_training_evidence_gives_true() {
    let corpus = lines(&["good great 1", "good fine 1", "bad awful 0", "bad poor 0"]);
    let vocab = read_vocab(&corpus);
    let data = read_dataset(&corpus, &vocab).unwrap();
    let table = CondProbTable::from_data(&data, vocab.len());
    let row = encode("good great 1", &vocab).unwrap();
    let s_true = score(&table, true, &row.features);
    let s_false = score(&table, false, &row.features);
    assert!(s_true >= s_false);
}

#[test]
fn train_builds_vocabulary_rows_and_counts() {
    let corpus = lines(&["good good 1", "bad 0", "good, bad 0"]);
    let (vocab, data, table) = train(&corpus).unwrap();
    assert_eq!(vocab, words(&["bad", "good"]));
    assert_eq!(data.len(), 3);
    assert_eq!(data[2], Row { features: vec![0, 1], class: false });
    assert_eq!(table.vocab_len(), 2);
    assert_eq!(table.count(false, 0), 2);
    assert_eq!(table.count(false, 1), 1);
    assert_eq!(table.count(true, 1), 1);
    assert_eq!(table.p_cd(false), Ok(Prob { num: 2, den: 3 }));
    assert!(matches!(train(&lines(&["good 1", "bad"])), Err(FormatError { line: 2 })));
}
