use yenta::error::MatchError;
use yenta::fixed::SCALE;
use yenta::matching::{match_vec_to_vec, MatchMode};
use yenta::names::{NameGrouped, NameProcessed, NameUngrouped};
use yenta::opts::MatchOptions;

fn processed(name: &str, id: &str) -> NameProcessed<NameUngrouped> {
    let tokens: Vec<String> = name.split_ascii_whitespace().map(|t| t.to_string()).collect();
    NameProcessed::new(NameUngrouped::new(name.to_string(), id.to_string()), tokens)
}

fn processed_grouped(name: &str, id: &str, group: &str) -> NameProcessed<NameGrouped> {
    let tokens: Vec<String> = name.split_ascii_whitespace().map(|t| t.to_string()).collect();
    NameProcessed::new(
        NameGrouped::new(name.to_string(), id.to_string(), group.to_string()),
        tokens,
    )
}

fn opts(minimum_score: u64) -> MatchOptions {
    MatchOptions { minimum_score, num_results: 1, ties_within: None }
}

#[test]
fn empty_reference_corpus_is_rejected() {
    let from = vec![processed("john smith", "1")];
    let to: Vec<NameProcessed<NameUngrouped>> = Vec::new();
    let res = match_vec_to_vec(MatchMode::TokenMatch, from, to, &opts(0), false);
    assert!(matches!(res, Err(MatchError::EmptyReferenceCorpus)));
}

#[test]
fn small_ngram_window_is_rejected() {
    let from = vec![processed("john smith", "1")];
    let to = vec![processed("john smith", "2")];
    let res = match_vec_to_vec(MatchMode::NGramMatch(1), from, to, &opts(0), false);
    assert!(matches!(res, Err(MatchError::InvalidNGramWindow)));
    assert_eq!(
        MatchError::InvalidNGramWindow.message(),
        "invalid n-gram window"
    );
}

#[test]
fn token_match_finds_the_identical_record() {
    let from = vec![processed("john smith", "a")];
    let to = vec![processed("mary jones", "b1"), processed("john smith", "b2")];
    let res = match_vec_to_vec(MatchMode::TokenMatch, from, to, &opts(0), false).unwrap();
    assert_eq!(res.len(), 1);
    assert_eq!(res[0].len(), 1);
    assert_eq!(res[0][0].from_id, "a".to_string());
    assert_eq!(res[0][0].to_id, "b2".to_string());
    assert_eq!(res[0][0].score, SCALE);
}

#[test]
fn minimum_score_filter_is_strict() {
    // the best candidate scores exactly SCALE; a cutoff at SCALE excludes it
    let from = vec![processed("john smith", "a")];
    let to = vec![processed("john smith", "b"), processed("other thing", "c")];
    let res = match_vec_to_vec(MatchMode::TokenMatch, from, to, &opts(SCALE), false).unwrap();
    assert_eq!(res[0].len(), 0);

    let from = vec![processed("john smith", "a")];
    let to = vec![processed("john smith", "b"), processed("other thing", "c")];
    let res = match_vec_to_vec(MatchMode::TokenMatch, from, to, &opts(SCALE - 1), false)
        .unwrap();
    assert_eq!(res[0].len(), 1);
    assert_eq!(res[0][0].score, SCALE);
}

#[test]
fn group_prefilter_discards_unmatched_groups() {
    // an identical name in a group with no bucket yields no candidates
    let from = vec![
        processed_grouped("john smith", "a1", "north"),
        processed_grouped("john smith", "a2", "west"),
    ];
    let to = vec![
        processed_grouped("john smith", "b", "west"),
        processed_grouped("mary jones", "c", "east"),
    ];
    let res = match_vec_to_vec(MatchMode::TokenMatch, from, to, &opts(0), true).unwrap();
    assert_eq!(res.len(), 2);
    assert_eq!(res[0].len(), 0);
    assert_eq!(res[1].len(), 1);
    assert_eq!(res[1][0].to_id, "b".to_string());
}

#[test]
fn ties_within_keeps_near_misses() {
    // "john smith" matches b2 fully and b3 on one of two tokens
    let from = vec![processed("john smith", "a")];
    let to = vec![
        processed("mary jones", "b1"),
        processed("john smith", "b2"),
        processed("john waters", "b3"),
    ];
    let options = MatchOptions {
        minimum_score: 0,
        num_results: 1,
        ties_within: Some(SCALE),
    };
    let res = match_vec_to_vec(MatchMode::TokenMatch, from, to, &options, false).unwrap();
    assert_eq!(res[0].len(), 2);
    assert_eq!(res[0][0].to_id, "b2".to_string());
    assert_eq!(res[0][1].to_id, "b3".to_string());

    let from = vec![processed("john smith", "a")];
    let to = vec![
        processed("mary jones", "b1"),
        processed("john smith", "b2"),
        processed("john waters", "b3"),
    ];
    let strict = MatchOptions { minimum_score: 0, num_results: 1, ties_within: None };
    let res = match_vec_to_vec(MatchMode::TokenMatch, from, to, &strict, false).unwrap();
    assert_eq!(res[0].len(), 1);
    assert_eq!(res[0][0].to_id, "b2".to_string());
}

#[test]
fn all_passing_candidates_fit_within_k() {
    // three candidates pass the filter and the selector holds five:
    // every one of them is delivered
    let from = vec![processed("john smith", "a")];
    let to = vec![
        processed("john smith", "b1"),
        processed("john waters", "b2"),
        processed("ann smith", "b3"),
        processed("zzz qqq", "b4"),
    ];
    let options = MatchOptions { minimum_score: 0, num_results: 5, ties_within: None };
    let res = match_vec_to_vec(MatchMode::TokenMatch, from, to, &options, false).unwrap();
    assert_eq!(res[0].len(), 3);
    assert_eq!(res[0][0].to_id, "b1".to_string());
}

#[test]
fn error_messages_are_stable() {
    assert_eq!(
        MatchError::EmptyReferenceCorpus.message(),
        "empty reference corpus"
    );
}

#[test]
fn ngram_pipeline_end_to_end() {
    let from = vec![processed("john smith", "a")];
    let to = vec![processed("jonnn sssmyth", "b"), processed("zzz qqq", "c")];
    let res = match_vec_to_vec(MatchMode::NGramMatch(2), from, to, &opts(0), false).unwrap();
    assert_eq!(res[0].len(), 1);
    // the weight model here is one-sided, so the score differs from the
    // two-sided regression; the match must still come through
    assert!(res[0][0].score > 0);
    assert_eq!(res[0][0].to_id, "b".to_string());
}
