use tfidf::{Hit, IdfEntry, Index, Part, Ratio};

fn doc(pairs: &[(&str, u64, u64)]) -> Vec<(String, Ratio)> {
    pairs.iter().map(|(k, n, d)| (String::from(*k), Ratio { num: *n, den: *d })).collect()
}

fn idf_value(e: IdfEntry) -> f64 {
    (e.n as f64 / e.df as f64).log10()
}

fn score(h: &Hit) -> f64 {
    h.parts.iter().map(|p| (p.n as f64 / p.df as f64).log10() * (p.weight.num as f64 / p.weight.den as f64)).sum()
}

fn approx_eq(f1: f64, f2: f64) {
    assert!((f2 - f1).abs() < 0.0001, "{} != {}", f1, f2)
}

fn wikipedia() -> Index {
    let mut idx = Index::new();
    idx.add_doc(doc(&[("this", 1, 5), ("is", 1, 5), ("a", 2, 5), ("sample", 1, 5)]));
    idx.add_doc(doc(&[("this", 1, 7), ("is", 1, 7), ("another", 2, 7), ("example", 3, 7)]));
    idx
}

#[test]
fn test_wikipedia() {
    let mut idx = wikipedia();
    idx.update_index();

    let this = idx.idf(&String::from("this")).unwrap();
    assert_eq!(2, this.stamp);
    assert_eq!(0.0, idf_value(this));
    let c = idx.tfidf(&String::from("this")).unwrap();
    assert!(c.iter().all(|(_, w)| idf_value(this) * (w.num as f64 / w.den as f64) == 0.0));

    let ex = idx.idf(&String::from("example")).unwrap();
    approx_eq(0.301, idf_value(ex));
    let v = idx.tfidf(&String::from("example")).unwrap();
    assert_eq!(1, v.len());
    assert_eq!(2, v[0].0);
    approx_eq(0.129, idf_value(ex) * (v[0].1.num as f64 / v[0].1.den as f64));

    let sv = idx.search(&vec![String::from("example")]);
    assert_eq!(1, sv.len());
    assert_eq!(2, sv[0].doc);
    approx_eq(0.129, score(&sv[0]));
}

#[test]
fn ids_start_at_one_and_increase() {
    let mut idx = Index::new();
    assert_eq!(1, idx.add_doc(doc(&[("a", 1, 1)])));
    assert_eq!(2, idx.add_doc(doc(&[("b", 1, 1)])));
    assert_eq!(2, idx.len());
    assert_eq!(2, idx.op());
}

#[test]
fn untouched_terms_go_stale_until_reconciled() {
    let idx0 = wikipedia();
    let mut idx = idx0;
    assert_eq!(Some(true), idx.stale(&String::from("sample")));
    assert_eq!(Some(false), idx.stale(&String::from("example")));
    assert_eq!(Some(IdfEntry { stamp: 1, n: 1, df: 1 }), idx.idf(&String::from("sample")));
    idx.update_index();
    assert_eq!(Some(false), idx.stale(&String::from("sample")));
    assert_eq!(Some(IdfEntry { stamp: 2, n: 2, df: 1 }), idx.idf(&String::from("sample")));
    assert_eq!(None, idx.stale(&String::from("missing")));
}

#[test]
fn second_reconcile_changes_nothing() {
    let mut idx = wikipedia();
    idx.update_index();
    let terms = ["this", "is", "a", "sample", "another", "example"];
    let before: Vec<_> = terms.iter().map(|t| (idx.idf(&String::from(*t)), idx.tfidf(&String::from(*t)))).collect();
    idx.update_index();
    let after: Vec<_> = terms.iter().map(|t| (idx.idf(&String::from(*t)), idx.tfidf(&String::from(*t)))).collect();
    assert_eq!(before, after);
}

#[test]
fn search_unknown_term_is_empty() {
    let mut idx = wikipedia();
    idx.update_index();
    assert!(idx.search(&vec![String::from("zebra")]).is_empty());
}

#[test]
fn search_sums_per_term_scores() {
    let mut idx = Index::new();
    idx.add_doc(doc(&[("red", 1, 2), ("blue", 1, 2)]));
    idx.add_doc(doc(&[("red", 1, 1)]));
    idx.add_doc(doc(&[("green", 1, 1)]));
    idx.update_index();
    let hits = idx.search(&vec![String::from("red"), String::from("blue")]);
    assert_eq!(2, hits.len());
    let h1 = hits.iter().find(|h| h.doc == 1).unwrap();
    assert_eq!(2, h1.parts.len());
    let red = (3.0f64 / 2.0).log10();
    let blue = (3.0f64 / 1.0).log10();
    approx_eq(red * 0.5 + blue * 0.5, score(h1));
    let h2 = hits.iter().find(|h| h.doc == 2).unwrap();
    approx_eq(red, score(h2));
}

#[test]
fn cache_is_sorted_by_weight() {
    let mut idx = Index::new();
    idx.add_doc(doc(&[("t", 1, 4)]));
    idx.add_doc(doc(&[("t", 3, 4)]));
    idx.add_doc(doc(&[("t", 1, 2)]));
    let c = idx.tfidf(&String::from("t")).unwrap();
    let ids: Vec<u64> = c.iter().map(|(d, _)| *d).collect();
    assert_eq!(vec![2, 3, 1], ids);
}

#[test]
fn search_drops_documents_scoring_zero() {
    let mut idx = wikipedia();
    idx.update_index();
    assert!(idx.search(&vec![String::from("this")]).is_empty());
    let hits = idx.search(&vec![String::from("this"), String::from("sample")]);
    assert_eq!(1, hits.len());
    assert_eq!(1, hits[0].doc);
    assert_eq!(2, hits[0].parts.len());
}

#[test]
fn search_parts_follow_query_order() {
    let mut idx = wikipedia();
    idx.update_index();
    let hits = idx.search(&vec![String::from("example"), String::from("another"), String::from("example")]);
    assert_eq!(1, hits.len());
    let w: Vec<Ratio> = hits[0].parts.iter().map(|p| p.weight).collect();
    assert_eq!(vec![Ratio { num: 3, den: 7 }, Ratio { num: 2, den: 7 }, Ratio { num: 3, den: 7 }], w);
}

#[test]
fn snapshot_records_terms_at_insertion() {
    let mut idx = wikipedia();
    idx.update_index();
    let s = idx.snapshot(2).unwrap();
    assert_eq!(4, s.len());
    let ex = s.iter().find(|(t, _)| t == "example").unwrap();
    assert_eq!(Part { n: 2, df: 1, weight: Ratio { num: 3, den: 7 } }, ex.1);
    let first = idx.snapshot(1).unwrap();
    let this = first.iter().find(|(t, _)| t == "this").unwrap();
    assert_eq!(Part { n: 1, df: 1, weight: Ratio { num: 1, den: 5 } }, this.1);
    assert_eq!(None, idx.snapshot(0));
    assert_eq!(None, idx.snapshot(3));
}
