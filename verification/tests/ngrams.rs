use yenta::idf::Idf;
use yenta::names::{NameProcessed, NameUngrouped};
use yenta::ngram::{mconcat_chars, n_gram, NameNGrams, NGram};

const SCALE_F: f64 = 1.0e9;

fn counts(g: &NGram, grams: &[&str]) -> Vec<u64> {
    grams.iter().map(|s| g.count(&s.to_string())).collect()
}

#[test]
fn name_n_grams() {
    let g = n_gram("abcd", 2);
    assert_eq!(
        counts(&g, &["\u{2060}a", "ab", "bc", "cd", "d\u{2060}"]),
        vec![1, 1, 1, 1, 1]
    );
    assert_eq!(g.n_ngrams(), 5);

    let g = n_gram("abcd", 3);
    assert_eq!(
        counts(
            &g,
            &[
                "\u{2060}\u{2060}a",
                "\u{2060}ab",
                "abc",
                "bcd",
                "cd\u{2060}",
                "d\u{2060}\u{2060}",
            ]
        ),
        vec![1, 1, 1, 1, 1, 1]
    );
    assert_eq!(g.n_ngrams(), 6);

    let g = n_gram("abcd", 4);
    assert_eq!(
        counts(
            &g,
            &[
                "\u{2060}\u{2060}\u{2060}a",
                "\u{2060}\u{2060}ab",
                "\u{2060}abc",
                "abcd",
                "bcd\u{2060}",
                "cd\u{2060}\u{2060}",
                "d\u{2060}\u{2060}\u{2060}",
            ]
        ),
        vec![1, 1, 1, 1, 1, 1, 1]
    );
    assert_eq!(g.n_ngrams(), 7);
}

#[test]
fn ngram_n_grams() {
    // the same windows, counted off a repeated-letter token
    let g = n_gram("abcd", 2);
    assert_eq!(g.count(&"\u{2060}a".to_string()), 1);
    assert_eq!(g.count(&"ab".to_string()), 1);
    assert_eq!(g.count(&"bc".to_string()), 1);
    assert_eq!(g.count(&"cd".to_string()), 1);
    assert_eq!(g.count(&"d\u{2060}".to_string()), 1);
    assert_eq!(g.count(&"zz".to_string()), 0);
    assert_eq!(g.n_ngrams(), 5);

    let g = n_gram("aaa", 2);
    assert_eq!(g.count(&"aa".to_string()), 2);
    assert_eq!(g.count(&"\u{2060}a".to_string()), 1);
    assert_eq!(g.count(&"a\u{2060}".to_string()), 1);
    assert_eq!(g.n_ngrams(), 4);
}

fn processed(name: &str, id: &str) -> NameProcessed<NameUngrouped> {
    let tokens: Vec<String> = name.split_ascii_whitespace().map(|t| t.to_string()).collect();
    NameProcessed::new(NameUngrouped::new(name.to_string(), id.to_string()), tokens)
}

#[test]
fn name_n_gram_matching() {
    let np_0 = processed("john smith", "1");
    let np_1 = processed("jonnn sssmyth", "1");

    let mut nps = vec![np_0, np_1];
    let idf = Idf::new(&nps).unwrap();

    let ng_0 = NameNGrams::new(nps.pop().unwrap(), &idf, 2);
    let ng_1 = NameNGrams::new(nps.pop().unwrap(), &idf, 2);

    let ms = ng_0.compute_match_score(&ng_1) as f64 / SCALE_F;
    let ms_flipped = ng_1.compute_match_score(&ng_0) as f64 / SCALE_F;
    let ms_self_0 = ng_0.compute_match_score(&ng_0) as f64 / SCALE_F;
    let ms_self_1 = ng_1.compute_match_score(&ng_1) as f64 / SCALE_F;
    assert!((ms - 0.562536).abs() < 1.0e-6);
    assert!((ms_flipped - 0.562536).abs() < 1.0e-6);
    assert!((ms_self_0 - 1.0).abs() < 1.0e-6);
    assert!((ms_self_1 - 1.0).abs() < 1.0e-6);
}

#[test]
fn ngram_n_gram_matching() {
    // the same pair again: the two directions must agree exactly
    let np_0 = processed("john smith", "1");
    let np_1 = processed("jonnn sssmyth", "2");

    let nps = vec![np_0, np_1];
    let idf = Idf::new(&nps).unwrap();
    let mut nps = nps;

    let ng_0 = NameNGrams::new(nps.pop().unwrap(), &idf, 2);
    let ng_1 = NameNGrams::new(nps.pop().unwrap(), &idf, 2);

    let ms = ng_0.compute_match_score(&ng_1);
    let ms_flipped = ng_1.compute_match_score(&ng_0);
    assert_eq!(ms, ms_flipped);
    assert!((ms as f64 / SCALE_F - 0.562536).abs() < 1.0e-6);
}

#[test]
fn mconcat_chars_concatenates() {
    assert_eq!(mconcat_chars(vec!['a', 'b', 'c']), "abc".to_string());
    assert_eq!(mconcat_chars(Vec::new()), String::new());
}
