use yenta::fixed::{LN2_FIXED, SCALE};
use yenta::idf::Idf;
use yenta::levenshtein::{NameDamerauLevenshtein, NameLevenshtein};
use yenta::names::{NameProcessed, NameUngrouped};
use yenta::weighted::NameWeighted;

const SCALE_F: f64 = 1.0e9;

fn processed(name: &str, id: &str) -> NameProcessed<NameUngrouped> {
    let tokens: Vec<String> = name.split_ascii_whitespace().map(|t| t.to_string()).collect();
    NameProcessed::new(NameUngrouped::new(name.to_string(), id.to_string()), tokens)
}

#[test]
fn token_self_match_is_exactly_one() {
    let nps = vec![processed("john smith", "1"), processed("mary jones", "2")];
    let idf = Idf::new(&nps).unwrap();
    let mut nps = nps;
    let w_1 = NameWeighted::new(nps.pop().unwrap(), &idf);
    let w_0 = NameWeighted::new(nps.pop().unwrap(), &idf);
    assert_eq!(w_0.compute_match_score(&w_0), SCALE);
    assert_eq!(w_1.compute_match_score(&w_1), SCALE);
}

#[test]
fn token_score_is_symmetric() {
    let nps = vec![
        processed("john smith smith", "1"),
        processed("smith avery", "2"),
        processed("zoe quill", "3"),
    ];
    let idf = Idf::new(&nps).unwrap();
    let mut nps = nps;
    let _w_2 = NameWeighted::new(nps.pop().unwrap(), &idf);
    let w_1 = NameWeighted::new(nps.pop().unwrap(), &idf);
    let w_0 = NameWeighted::new(nps.pop().unwrap(), &idf);
    assert_eq!(w_0.compute_match_score(&w_1), w_1.compute_match_score(&w_0));
    assert!(w_0.compute_match_score(&w_1) > 0);
}

#[test]
fn disjoint_vocabularies_score_zero() {
    let nps = vec![processed("john smith", "1"), processed("mary jones", "2")];
    let idf = Idf::new(&nps).unwrap();
    let mut nps = nps;
    let w_1 = NameWeighted::new(nps.pop().unwrap(), &idf);
    let w_0 = NameWeighted::new(nps.pop().unwrap(), &idf);
    assert_eq!(w_0.compute_match_score(&w_1), 0);
    assert_eq!(w_1.compute_match_score(&w_0), 0);
}

#[test]
fn two_document_weights_are_ln_two() {
    let nps = vec![processed("john smith", "1"), processed("mary jones", "2")];
    let idf = Idf::new(&nps).unwrap();
    // a token in exactly one of the two documents
    assert_eq!(idf.lookup(&"john".to_string()), LN2_FIXED);
    // a token the corpus never saw
    assert_eq!(idf.lookup(&"absent".to_string()), LN2_FIXED);
    assert!((LN2_FIXED as f64 / SCALE_F - 0.693147).abs() < 1.0e-6);
}

#[test]
fn three_document_weights_are_ln_three() {
    let nps = vec![
        processed("alpha beta", "1"),
        processed("gamma delta", "2"),
        processed("epsilon zeta", "3"),
    ];
    let idf = Idf::new(&nps).unwrap();
    let w = idf.lookup(&"alpha".to_string()) as f64 / SCALE_F;
    assert!((w - 1.0986123).abs() < 1.0e-6);
    let missing = idf.lookup(&"eta".to_string()) as f64 / SCALE_F;
    assert!((missing - 1.0986123).abs() < 1.0e-6);
}

#[test]
fn levenshtein_similarity_matches_distance() {
    // levenshtein("kitten", "sitting") == 3, max length 7
    let nps = vec![processed("kitten", "1"), processed("sitting", "2")];
    let idf = Idf::new(&nps).unwrap();
    let mut nps = nps;
    let l_1 = NameLevenshtein::new(nps.pop().unwrap(), &idf);
    let l_0 = NameLevenshtein::new(nps.pop().unwrap(), &idf);
    let ms = l_0.compute_match_score(&l_1) as f64 / SCALE_F;
    assert!((ms - 4.0 / 7.0).abs() < 1.0e-5);
    let self_ms = l_0.compute_match_score(&l_0) as f64 / SCALE_F;
    assert!((self_ms - 1.0).abs() < 1.0e-6);
}

#[test]
fn damerau_allows_edits_after_transposition() {
    // with unrestricted transpositions, damerau_levenshtein("ab", "bca")
    // is 2 (swap, then insert), so the similarity is 1 - 2/3
    let nps = vec![processed("ab", "1"), processed("bca", "2")];
    let idf = Idf::new(&nps).unwrap();
    let mut nps = nps;
    let d_1 = NameDamerauLevenshtein::new(nps.pop().unwrap(), &idf);
    let d_0 = NameDamerauLevenshtein::new(nps.pop().unwrap(), &idf);
    let dl = d_0.compute_match_score(&d_1) as f64 / SCALE_F;
    assert!((dl - 1.0 / 3.0).abs() < 1.0e-5);
}

#[test]
fn damerau_counts_transpositions_once() {
    // damerau_levenshtein("ab", "ba") == 1 but levenshtein("ab", "ba") == 2
    let nps = vec![processed("ab", "1"), processed("ba", "2")];
    let idf = Idf::new(&nps).unwrap();

    let nps_d = vec![processed("ab", "1"), processed("ba", "2")];
    let mut nps_d = nps_d;
    let d_1 = NameDamerauLevenshtein::new(nps_d.pop().unwrap(), &idf);
    let d_0 = NameDamerauLevenshtein::new(nps_d.pop().unwrap(), &idf);
    let dl = d_0.compute_match_score(&d_1) as f64 / SCALE_F;
    assert!((dl - 0.5).abs() < 1.0e-5);

    let mut nps_l = nps;
    let l_1 = NameLevenshtein::new(nps_l.pop().unwrap(), &idf);
    let l_0 = NameLevenshtein::new(nps_l.pop().unwrap(), &idf);
    let lv = l_0.compute_match_score(&l_1);
    assert_eq!(lv, 0);
}
