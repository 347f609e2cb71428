use std::collections::HashMap;
use tfidf::{
    clean_token, split_space, term_frequency, term_frequency_aug, term_frequency_bool, term_frequency_len,
    term_frequency_log, tokenize, Ratio, WeightError,
};

fn words() -> Vec<String> {
    vec!["the", "lazy", "fox", "jumps", "over", "the", "fence"].iter().map(|s| String::from(*s)).collect()
}

fn as_floats(v: Vec<(String, Ratio)>) -> HashMap<String, f64> {
    v.into_iter().map(|(k, w)| (k, w.num as f64 / w.den as f64)).collect()
}

fn expected(pairs: &[(&str, f64)]) -> HashMap<String, f64> {
    let mut m = HashMap::new();
    for (k, v) in pairs {
        m.insert(String::from(*k), *v);
    }
    m
}

#[test]
fn test_clean_token() {
    assert_eq!(String::from("jp"), clean_token("jp"));
    assert_eq!(String::from("jp"), clean_token(".jp"));
    assert_eq!(String::from("jp"), clean_token("jp."));
    assert_eq!(String::from("jp"), clean_token("jp1"));
    assert_eq!(String::from("jp"), clean_token("1jp"));
    assert_eq!(String::from("j-p"), clean_token("j-p"));
    assert_eq!(String::from("j-p"), clean_token("J-P"));
}

#[test]
fn test_tokenize() {
    let v = vec!["the", "lazy", "fox", "jumps", "over", "the", "fence"];
    assert_eq!(v, tokenize("The, lazy, fox  2  jumps over the fence!!"));
}

#[test]
fn test_term_frequency() {
    let m = expected(&[("the", 2.0), ("lazy", 1.0), ("fox", 1.0), ("jumps", 1.0), ("over", 1.0), ("fence", 1.0)]);
    assert_eq!(m, as_floats(term_frequency(words())));
}

#[test]
fn test_term_frequency_bool() {
    let m = expected(&[("the", 1.0), ("lazy", 1.0), ("fox", 1.0), ("jumps", 1.0), ("over", 1.0), ("fence", 1.0)]);
    assert_eq!(m, as_floats(term_frequency_bool(words())));
}

#[test]
fn test_term_frequency_len() {
    let m = expected(&[
        ("the", 2.0 / 7.0),
        ("lazy", 1.0 / 7.0),
        ("fox", 1.0 / 7.0),
        ("jumps", 1.0 / 7.0),
        ("over", 1.0 / 7.0),
        ("fence", 1.0 / 7.0),
    ]);
    assert_eq!(m, as_floats(term_frequency_len(words())));
}

#[test]
fn test_term_frequency_log() {
    let m = expected(&[
        ("the", f64::log10(3.0)),
        ("lazy", f64::log10(2.0)),
        ("fox", f64::log10(2.0)),
        ("jumps", f64::log10(2.0)),
        ("over", f64::log10(2.0)),
        ("fence", f64::log10(2.0)),
    ]);
    let got: HashMap<String, f64> =
        term_frequency_log(words()).into_iter().map(|(k, a)| (k, (a as f64).log10())).collect();
    assert_eq!(m, got);
}

#[test]
fn test_term_frequency_aug() {
    let m = expected(&[("the", 1.0), ("lazy", 0.75), ("fox", 0.75), ("jumps", 0.75), ("over", 0.75), ("fence", 0.75)]);
    assert_eq!(m, as_floats(term_frequency_aug(words()).unwrap()));
}

#[test]
fn aug_refuses_empty_document() {
    assert_eq!(Err(WeightError::EmptyDocument), term_frequency_aug(Vec::new()));
}

#[test]
fn aug_weights_stay_between_half_and_one() {
    let doc: Vec<String> = vec!["a", "b", "b", "c", "c", "c", "c"].iter().map(|s| String::from(*s)).collect();
    for (_, w) in term_frequency_aug(doc).unwrap() {
        let f = w.num as f64 / w.den as f64;
        assert!((0.5..=1.0).contains(&f));
    }
}

#[test]
fn len_weights_sum_to_one() {
    let total: f64 = as_floats(term_frequency_len(words())).values().sum();
    assert!((total - 1.0).abs() < 1e-12);
}

#[test]
fn raw_counts_exact() {
    let doc: Vec<String> = vec!["x", "y", "x", "x"].iter().map(|s| String::from(*s)).collect();
    let r = term_frequency(doc);
    assert_eq!(vec![(String::from("x"), Ratio { num: 3, den: 1 }), (String::from("y"), Ratio { num: 1, den: 1 })], r);
}

#[test]
fn split_space_runs() {
    assert_eq!(vec!["a", "bc", "d"], split_space("  a \t bc\nd  "));
    assert!(split_space("   ").is_empty());
}

#[test]
fn tokenize_drops_empty_chunks() {
    assert_eq!(vec!["ab"], tokenize("12 -- ab ??"));
    assert!(tokenize("").is_empty());
}

#[test]
fn trim_token_by_marks() {
    let chars: Vec<char> = "1ab-2".chars().collect();
    let marks = vec![false, true, true, false, false];
    assert_eq!(vec!['a', 'b'], tfidf::doc::trim_token(&chars, &marks));
    let inner = vec![true, false, false, false, true];
    assert_eq!(chars.clone(), tfidf::doc::trim_token(&chars, &inner));
    assert!(tfidf::doc::trim_token(&chars, &vec![false; 5]).is_empty());
}

#[test]
fn split_on_by_marks() {
    let chars: Vec<char> = "a,,bc,".chars().collect();
    let marks: Vec<bool> = chars.iter().map(|c| *c == ',').collect();
    assert_eq!(vec![vec!['a'], vec!['b', 'c']], tfidf::doc::split_on(&chars, &marks));
}
