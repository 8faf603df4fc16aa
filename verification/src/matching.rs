//! The match orchestrator: one profile kind per match mode, a per-record
//! scoring loop feeding the top-K-with-ties selector, and the to-side
//! index (flat, or partitioned by group key).

use crate::error::MatchError;
use crate::heap::{
    lemma_push_elements, spec_push, MinMaxTieHeap, TieRule,
};
use crate::idf::{Idf, TokenDocument};
use crate::levenshtein::{spec_dl_score, spec_lev_score, NameDamerauLevenshtein, NameLevenshtein};
use crate::names::{NameProcessed, UnprocessedName, TOKEN_CAP};
use crate::tokens::TokenCounter;
use crate::ngram::{spec_ngram_score, NameNGrams};
use crate::opts::MatchOptions;
use crate::weighted::{spec_token_score, NameWeighted};
use vstd::multiset::Multiset;
use vstd::prelude::*;

verus! {

broadcast use vstd::seq_lib::group_to_multiset_ensures;

/// The similarity model of a run, chosen once from configuration.
#[derive(Clone, Copy, PartialEq, Eq, Structural, Debug)]
pub enum MatchMode {
    /// Exact match on processed tokens.
    TokenMatch,
    /// Fuzzy match using n-grams (of the given window size) on processed
    /// tokens.
    NGramMatch(usize),
    /// Fuzzy match using Levenshtein distance on processed tokens.
    Levenshtein,
    /// Fuzzy match using Damerau-Levenshtein distance on processed tokens.
    DamerauLevenshtein,
}

/// A usable mode: an n-gram window must be at least 2 (and within the
/// capacity bound).
pub open spec fn mode_wf(mode: MatchMode) -> bool {
    match mode {
        MatchMode::NGramMatch(w) => 2 <= w <= TOKEN_CAP,
        _ => true,
    }
}

/// A record's scorable representation under one match mode.
pub enum MatchableName<N> {
    Token(NameWeighted<N>),
    NGram(NameNGrams<N>),
    Levenshtein(NameLevenshtein<N>),
    DamerauLevenshtein(NameDamerauLevenshtein<N>),
}

impl<N> MatchableName<N> {
    pub open spec fn wf(&self) -> bool {
        match self {
            MatchableName::Token(p) => p.wf(),
            MatchableName::NGram(p) => p.wf(),
            MatchableName::Levenshtein(p) => p.wf(),
            MatchableName::DamerauLevenshtein(p) => p.wf(),
        }
    }

    /// The record this profile was built from.
    pub open spec fn spec_record(&self) -> N {
        match self {
            MatchableName::Token(p) => p.spec_name(),
            MatchableName::NGram(p) => p.spec_name(),
            MatchableName::Levenshtein(p) => p.spec_name(),
            MatchableName::DamerauLevenshtein(p) => p.spec_name(),
        }
    }

    pub fn get_name(&self) -> (r: &N)
        ensures
            r == &self.spec_record(),
    {
        match self {
            MatchableName::Token(p) => p.name(),
            MatchableName::NGram(p) => p.name(),
            MatchableName::Levenshtein(p) => p.name(),
            MatchableName::DamerauLevenshtein(p) => p.name(),
        }
    }
}

/// Two profiles carry the same representation kind.
pub open spec fn same_kind<N>(a: &MatchableName<N>, b: &MatchableName<N>) -> bool {
    match (a, b) {
        (MatchableName::Token(_), MatchableName::Token(_)) => true,
        (MatchableName::NGram(_), MatchableName::NGram(_)) => true,
        (MatchableName::Levenshtein(_), MatchableName::Levenshtein(_)) => true,
        (MatchableName::DamerauLevenshtein(_), MatchableName::DamerauLevenshtein(_)) => true,
        _ => false,
    }
}

/// The profile kind `mode` produces.
pub open spec fn made_by<N>(mode: MatchMode, r: &MatchableName<N>) -> bool {
    match (mode, r) {
        (MatchMode::TokenMatch, MatchableName::Token(_)) => true,
        (MatchMode::NGramMatch(_), MatchableName::NGram(_)) => true,
        (MatchMode::Levenshtein, MatchableName::Levenshtein(_)) => true,
        (MatchMode::DamerauLevenshtein, MatchableName::DamerauLevenshtein(_)) => true,
        _ => false,
    }
}

/// The profile `r` is what `mode` builds from the token counter `c` and
/// the weight model `idf`: the counter is carried verbatim, every token's
/// weight is the model's, and (for the n-gram mode) every token's n-gram
/// multiset is the padded-window multiset of the mode's window size.
/// Together with `wf` this pins everything a score reads.
pub open spec fn profile_built_from<N>(
    mode: MatchMode,
    r: &MatchableName<N>,
    c: TokenCounter,
    idf: &Idf,
) -> bool {
    match (mode, r) {
        (MatchMode::TokenMatch, MatchableName::Token(p)) => {
            &&& p.spec_counter() == c
            &&& forall|i: int|
                0 <= i < p.spec_weights().len() ==> #[trigger] p.spec_weights()[i] as int
                    == idf.spec_lookup(p.spec_pairs()[i].0)
        },
        (MatchMode::NGramMatch(w), MatchableName::NGram(p)) => {
            &&& p.spec_counter() == c
            &&& forall|i: int|
                0 <= i < p.spec_weights().len() ==> #[trigger] p.spec_weights()[i] as int
                    == idf.spec_lookup(p.spec_pairs()[i].0)
            &&& forall|i: int|
                0 <= i < p.spec_ngram_list().len() ==> crate::ngram::is_ngram_of(
                    #[trigger] p.spec_ngram_list()[i],
                    p.spec_pairs()[i].0,
                    w as int,
                )
        },
        (MatchMode::Levenshtein, MatchableName::Levenshtein(p)) => {
            &&& p.spec_counter() == c
            &&& forall|i: int|
                0 <= i < p.spec_weights().len() ==> #[trigger] p.spec_weights()[i] as int
                    == idf.spec_lookup(p.spec_pairs()[i].0)
        },
        (MatchMode::DamerauLevenshtein, MatchableName::DamerauLevenshtein(p)) => {
            &&& p.spec_counter() == c
            &&& forall|i: int|
                0 <= i < p.spec_weights().len() ==> #[trigger] p.spec_weights()[i] as int
                    == idf.spec_lookup(p.spec_pairs()[i].0)
        },
        _ => false,
    }
}

pub proof fn lemma_built_from_made_by<N>(
    mode: MatchMode,
    r: &MatchableName<N>,
    c: TokenCounter,
    idf: &Idf,
)
    requires
        profile_built_from(mode, r, c, idf),
    ensures
        made_by(mode, r),
{
}

pub proof fn lemma_made_by_same_kind<N>(
    mode: MatchMode,
    a: &MatchableName<N>,
    b: &MatchableName<N>,
)
    requires
        made_by(mode, a),
        made_by(mode, b),
    ensures
        same_kind(a, b),
{
}

/// Build the profile of one processed record under the selected mode.
pub fn make_matchable_name<N>(mode: MatchMode, np: NameProcessed<N>, idf: &Idf) -> (r:
    MatchableName<N>)
    requires
        np.wf(),
        idf.wf(),
        mode_wf(mode),
    ensures
        r.wf(),
        made_by(mode, &r),
        r.spec_record() == np.name,
        profile_built_from(mode, &r, np.token_counter, idf),
{
    match mode {
        MatchMode::TokenMatch => MatchableName::Token(NameWeighted::new(np, idf)),
        MatchMode::NGramMatch(w) => MatchableName::NGram(NameNGrams::new(np, idf, w)),
        MatchMode::Levenshtein => MatchableName::Levenshtein(NameLevenshtein::new(np, idf)),
        MatchMode::DamerauLevenshtein => MatchableName::DamerauLevenshtein(
            NameDamerauLevenshtein::new(np, idf),
        ),
    }
}

/// The score of a record pair under the (shared) mode of both profiles.
pub open spec fn spec_score<N>(a: &MatchableName<N>, b: &MatchableName<N>) -> int {
    match (a, b) {
        (MatchableName::Token(x), MatchableName::Token(y)) => spec_token_score(x, y),
        (MatchableName::NGram(x), MatchableName::NGram(y)) => spec_ngram_score(x, y),
        (MatchableName::Levenshtein(x), MatchableName::Levenshtein(y)) => spec_lev_score(x, y),
        (
            MatchableName::DamerauLevenshtein(x),
            MatchableName::DamerauLevenshtein(y),
        ) => spec_dl_score(x, y),
        _ => 0,
    }
}

/// Score one candidate pair.
pub fn score_match<N>(from_name: &MatchableName<N>, to_name: &MatchableName<N>) -> (score: u64)
    requires
        from_name.wf(),
        to_name.wf(),
        same_kind(from_name, to_name),
    ensures
        score as int == spec_score(from_name, to_name),
{
    match (from_name, to_name) {
        (MatchableName::Token(x), MatchableName::Token(y)) => x.compute_match_score(y),
        (MatchableName::NGram(x), MatchableName::NGram(y)) => x.compute_match_score(y),
        (MatchableName::Levenshtein(x), MatchableName::Levenshtein(y)) => x.compute_match_score(
            y,
        ),
        (MatchableName::DamerauLevenshtein(x), MatchableName::DamerauLevenshtein(y)) => x
            .compute_match_score(y),
        _ => {
            proof {
                assert(false);
            }
            0
        },
    }
}

/// One accepted match, ready for output.
pub struct MatchResult {
    pub from_name: String,
    pub from_id: String,
    pub to_name: String,
    pub to_id: String,
    pub score: u64,
}

/// The selector's tie rule for the configured tolerance: the original
/// filter keeps a candidate when its score is strictly within the
/// tolerance of the cutoff, which on fixed-point integers is an inclusive
/// tolerance one smaller.
pub open spec fn spec_rule_of(opts: &MatchOptions) -> TieRule {
    match opts.ties_within {
        None => TieRule::NoTies,
        Some(eps) => if eps == 0 {
            TieRule::NoTies
        } else {
            TieRule::Within((eps - 1) as u64)
        },
    }
}

fn rule_of(opts: &MatchOptions) -> (r: TieRule)
    ensures
        r == spec_rule_of(opts),
{
    match opts.ties_within {
        None => TieRule::NoTies,
        Some(eps) => if eps == 0 {
            TieRule::NoTies
        } else {
            TieRule::Within(eps - 1)
        },
    }
}

/// The scores of one from-record against every candidate, by index.
pub open spec fn spec_scores<N>(
    from: &MatchableName<N>,
    tos: Seq<MatchableName<N>>,
) -> Seq<u64> {
    Seq::new(tos.len(), |j: int| spec_score(from, &tos[j]) as u64)
}

/// Feed every score strictly above the minimum into a fresh selector, in
/// candidate order, tagged with its candidate index.
pub open spec fn spec_run_selector(
    scores: Seq<u64>,
    min_score: u64,
    size: int,
    rule: TieRule,
) -> (Multiset<(u64, u64)>, Multiset<(u64, u64)>)
    decreases scores.len(),
{
    if scores.len() == 0 {
        (Multiset::<(u64, u64)>::empty(), Multiset::<(u64, u64)>::empty())
    } else {
        let prev = spec_run_selector(scores.drop_last(), min_score, size, rule);
        let j = scores.len() - 1;
        let s = scores.last();
        if s > min_score {
            spec_push(prev.0, prev.1, size, rule, (s, j as u64))
        } else {
            prev
        }
    }
}

/// One retained element is one of the offered scores, above the minimum,
/// tagged with its index.
pub open spec fn selector_elem_ok(scores: Seq<u64>, min_score: u64, x: (u64, u64)) -> bool {
    &&& x.1 < scores.len()
    &&& x.0 == scores[x.1 as int]
    &&& x.0 > min_score
}

/// Everything the selector retains is one of the offered scores, above the
/// minimum, tagged with its index.
pub proof fn lemma_selector_elements(scores: Seq<u64>, min_score: u64, size: int, rule: TieRule)
    requires
        scores.len() <= u64::MAX,
    ensures
        forall|x: (u64, u64)|
            #[trigger] spec_run_selector(scores, min_score, size, rule).0.contains(x)
                ==> selector_elem_ok(scores, min_score, x),
        forall|x: (u64, u64)|
            #[trigger] spec_run_selector(scores, min_score, size, rule).1.contains(x)
                ==> selector_elem_ok(scores, min_score, x),
    decreases scores.len(),
{
    if scores.len() > 0 {
        lemma_selector_elements(scores.drop_last(), min_score, size, rule);
        let prev = spec_run_selector(scores.drop_last(), min_score, size, rule);
        let cur = spec_run_selector(scores, min_score, size, rule);
        let j = scores.len() - 1;
        let s = scores.last();
        assert(forall|i: int| 0 <= i < scores.len() - 1 ==> scores.drop_last()[i] == scores[i]);
        assert(scores[j] == s);
        assert forall|x: (u64, u64)| cur.0.contains(x) || cur.1.contains(x) implies
            selector_elem_ok(scores, min_score, x) by {
            if s > min_score {
                lemma_push_elements(prev.0, prev.1, size, rule, (s, j as u64));
                assert(cur == spec_push(prev.0, prev.1, size, rule, (s, j as u64)));
                assert(prev.0.contains(x) || prev.1.contains(x) || x == (s, j as u64));
            } else {
                assert(cur == prev);
            }
            if x == (s, j as u64) {
                assert(selector_elem_ok(scores, min_score, x));
            } else {
                assert(prev.0.contains(x) || prev.1.contains(x));
                assert(selector_elem_ok(scores.drop_last(), min_score, x));
                assert(selector_elem_ok(scores, min_score, x));
            }
        }
    }
}

/// The candidates that pass the minimum-score filter, tagged with their
/// indices.
pub open spec fn spec_passing(scores: Seq<u64>, min_score: u64) -> Multiset<(u64, u64)>
    decreases scores.len(),
{
    if scores.len() == 0 {
        Multiset::<(u64, u64)>::empty()
    } else {
        let prev = spec_passing(scores.drop_last(), min_score);
        if scores.last() > min_score {
            prev.insert((scores.last(), (scores.len() - 1) as u64))
        } else {
            prev
        }
    }
}

/// Completeness of the selector: when no more candidates pass the
/// minimum-score filter than the selector holds, every passing candidate
/// is retained in the main heap and none is dropped or demoted to a tie.
pub proof fn lemma_selector_retains_all(
    scores: Seq<u64>,
    min_score: u64,
    size: int,
    rule: TieRule,
)
    requires
        spec_passing(scores, min_score).len() <= size,
    ensures
        spec_run_selector(scores, min_score, size, rule).0 == spec_passing(scores, min_score),
        spec_run_selector(scores, min_score, size, rule).1 == Multiset::<(u64, u64)>::empty(),
    decreases scores.len(),
{
    if scores.len() > 0 {
        let prev_passing = spec_passing(scores.drop_last(), min_score);
        let passing = spec_passing(scores, min_score);
        assert(prev_passing.len() <= passing.len());
        lemma_selector_retains_all(scores.drop_last(), min_score, size, rule);
        let s = scores.last();
        if s > min_score {
            assert(passing == prev_passing.insert((s, (scores.len() - 1) as u64)));
            assert(prev_passing.len() < size);
        }
    }
}

/// The drained output of a selector state: the main heap descending, then
/// the ties descending.
pub open spec fn is_drained_output(
    ds: Seq<(u64, u64)>,
    mainm: Multiset<(u64, u64)>,
    tiesm: Multiset<(u64, u64)>,
) -> bool {
    &&& ds.len() == mainm.len() + tiesm.len()
    &&& ds.subrange(0, mainm.len() as int).to_multiset() == mainm
    &&& ds.subrange(mainm.len() as int, ds.len() as int).to_multiset() == tiesm
    &&& forall|i: int, j: int|
        0 <= i <= j < mainm.len() ==> crate::heap::pair_le(#[trigger] ds[j], #[trigger] ds[i])
    &&& forall|i: int, j: int|
        mainm.len() <= i <= j < ds.len() ==> crate::heap::pair_le(
            #[trigger] ds[j],
            #[trigger] ds[i],
        )
}

/// Each drained entry `(score, tag)` became one match result, keeping the
/// drained order.
pub open spec fn results_match<N: UnprocessedName>(
    ds: Seq<(u64, u64)>,
    from: &MatchableName<N>,
    tos: Seq<MatchableName<N>>,
    rs: Seq<MatchResult>,
) -> bool {
    &&& rs.len() == ds.len()
    &&& forall|i: int|
        0 <= i < ds.len() ==> {
            let tag = (#[trigger] ds[i]).1 as int;
            &&& 0 <= tag < tos.len()
            &&& rs[i].score == ds[i].0
            &&& rs[i].from_name@ == from.spec_record().spec_name()
            &&& rs[i].from_id@ == from.spec_record().spec_idx()
            &&& rs[i].to_name@ == tos[tag].spec_record().spec_name()
            &&& rs[i].to_id@ == tos[tag].spec_record().spec_idx()
        }
}

/// The full per-record contract: the selector was run over the candidate
/// scores, and the results are its drained output, best first.
pub open spec fn best_matches_spec<N: UnprocessedName>(
    from: &MatchableName<N>,
    tos: Seq<MatchableName<N>>,
    opts: &MatchOptions,
    rs: Seq<MatchResult>,
) -> bool {
    let sel = spec_run_selector(
        spec_scores(from, tos),
        opts.minimum_score,
        opts.num_results as int,
        spec_rule_of(opts),
    );
    &&& rs.len() == sel.0.len() + sel.1.len()
    &&& exists|ds: Seq<(u64, u64)>|
        #[trigger] is_drained_output(ds, sel.0, sel.1) && results_match(ds, from, tos, rs)
    &&& forall|i: int| 0 <= i < rs.len() ==> (#[trigger] rs[i]).score > opts.minimum_score
}

/// Score one from-record against its candidates, keep those strictly above
/// the minimum score, and retain the best `num_results` of them plus any
/// ties at the cutoff, best first.
pub fn best_matches_for_single_name<N: UnprocessedName>(
    from_name: &MatchableName<N>,
    to_names: &Vec<MatchableName<N>>,
    match_opts: &MatchOptions,
) -> (best: Vec<MatchResult>)
    requires
        from_name.wf(),
        forall|j: int|
            0 <= j < to_names@.len() ==> (#[trigger] to_names@[j]).wf() && same_kind(
                from_name,
                &to_names@[j],
            ),
        match_opts.wf(),
    ensures
        best_matches_spec(from_name, to_names@, match_opts, best@),
{
    let ghost scores = spec_scores(from_name, to_names@);
    let ghost rule_g = spec_rule_of(match_opts);
    let rule = rule_of(match_opts);
    let mut h = MinMaxTieHeap::new(match_opts.num_results, rule);
    let n = to_names.len();
    let mut j: usize = 0;
    proof {
        assert(scores.take(0) =~= Seq::<u64>::empty());
    }
    while j < n
        invariant
            from_name.wf(),
            forall|q: int|
                0 <= q < to_names@.len() ==> (#[trigger] to_names@[q]).wf() && same_kind(
                    from_name,
                    &to_names@[q],
                ),
            match_opts.wf(),
            scores == spec_scores(from_name, to_names@),
            rule == rule_g,
            n == to_names@.len(),
            j <= n,
            h.wf(),
            h.spec_size() == match_opts.num_results as int,
            h.spec_rule() == rule,
            (h.spec_main(), h.spec_ties()) == spec_run_selector(
                scores.take(j as int),
                match_opts.minimum_score,
                match_opts.num_results as int,
                rule_g,
            ),
        decreases n - j,
    {
        let s = score_match(from_name, &to_names[j]);
        proof {
            assert(scores[j as int] == s);
            assert(scores.take(j as int + 1).drop_last() =~= scores.take(j as int));
            assert(scores.take(j as int + 1).last() == scores[j as int]);
        }
        if s > match_opts.minimum_score {
            h.push((s, j as u64));
        }
        j = j + 1;
    }
    proof {
        assert(scores.take(n as int) =~= scores);
        lemma_selector_elements(
            scores,
            match_opts.minimum_score,
            match_opts.num_results as int,
            rule_g,
        );
    }
    let ghost mainm = h.spec_main();
    let ghost tiesm = h.spec_ties();
    let drained = h.into_vec_desc();
    let ghost ds = drained@;
    proof {
        assert(is_drained_output(ds, mainm, tiesm));
        // every drained element came from the selector's state
        assert forall|i: int| 0 <= i < ds.len() implies (mainm.contains(#[trigger] ds[i])
            || tiesm.contains(ds[i])) by {
            if i < mainm.len() {
                let part = ds.subrange(0, mainm.len() as int);
                assert(part[i] == ds[i]);
                assert(part.contains(ds[i]));
            } else {
                let part = ds.subrange(mainm.len() as int, ds.len() as int);
                assert(part[i - mainm.len()] == ds[i]);
                assert(part.contains(ds[i]));
            }
        }
    }

    proof {
        assert forall|i: int| 0 <= i < ds.len() implies (#[trigger] ds[i]).1 < n && ds[i].0
            > match_opts.minimum_score by {
            let sel = spec_run_selector(
                scores,
                match_opts.minimum_score,
                match_opts.num_results as int,
                rule_g,
            );
            assert(mainm == sel.0 && tiesm == sel.1);
            assert(sel.0.contains(ds[i]) || sel.1.contains(ds[i]));
        }
    }
    let m = drained.len();
    let mut best: Vec<MatchResult> = Vec::new();
    let mut k: usize = 0;
    while k < m
        invariant
            from_name.wf(),
            n == to_names@.len(),
            m == ds.len(),
            drained@ == ds,
            k <= m,
            best@.len() == k,
            forall|i: int|
                0 <= i < ds.len() ==> (#[trigger] ds[i]).1 < n && ds[i].0
                    > match_opts.minimum_score,
            results_match(ds.take(k as int), from_name, to_names@, best@),
        decreases m - k,
    {
        let (s, tag) = drained[k];
        let idx = tag as usize;
        let to_rec = to_names[idx].get_name();
        let from_rec = from_name.get_name();
        let r = MatchResult {
            from_name: from_rec.unprocessed_name().clone(),
            from_id: from_rec.idx().clone(),
            to_name: to_rec.unprocessed_name().clone(),
            to_id: to_rec.idx().clone(),
            score: s,
        };
        best.push(r);
        proof {
            assert(ds.take(k as int + 1).drop_last() =~= ds.take(k as int));
            assert(forall|i: int| 0 <= i < k + 1 ==> ds.take(k as int + 1)[i] == ds[i]);
        }
        k = k + 1;
    }
    proof {
        assert(ds.take(m as int) =~= ds);
        let sel = spec_run_selector(
            spec_scores(from_name, to_names@),
            match_opts.minimum_score,
            match_opts.num_results as int,
            spec_rule_of(match_opts),
        );
        assert(mainm == sel.0 && tiesm == sel.1);
        assert(is_drained_output(ds, sel.0, sel.1));
        assert(results_match(ds, from_name, to_names@, best@));
        assert forall|i: int|
            0 <= i < best@.len() implies (#[trigger] best@[i]).score > match_opts.minimum_score by {
            assert(best@[i].score == ds[i].0);
        }
    }
    best
}


/// Every profile in a sequence is well formed and of the mode's kind.
pub open spec fn all_wf_kind<N>(v: Seq<MatchableName<N>>, mode: MatchMode) -> bool {
    forall|j: int| 0 <= j < v.len() ==> (#[trigger] v[j]).wf() && made_by(mode, &v[j])
}

/// Build the profile of every processed record, in order.
pub fn make_matchable_names<N>(mode: MatchMode, names: Vec<NameProcessed<N>>, idf: &Idf) -> (r:
    Vec<MatchableName<N>>)
    requires
        mode_wf(mode),
        idf.wf(),
        forall|i: int| 0 <= i < names@.len() ==> (#[trigger] names@[i]).wf(),
    ensures
        r@.len() == names@.len(),
        all_wf_kind(r@, mode),
        forall|i: int| 0 <= i < r@.len() ==> (#[trigger] r@[i]).spec_record() == names@[i].name,
        forall|i: int|
            0 <= i < r@.len() ==> profile_built_from(
                mode,
                &(#[trigger] r@[i]),
                names@[i].token_counter,
                idf,
            ),
{
    let ghost orig = names@;
    let mut rest = names;
    let mut r: Vec<MatchableName<N>> = Vec::new();
    while rest.len() > 0
        invariant
            mode_wf(mode),
            idf.wf(),
            forall|i: int| 0 <= i < orig.len() ==> (#[trigger] orig[i]).wf(),
            r@.len() + rest@.len() == orig.len(),
            rest@ =~= orig.skip(r@.len() as int),
            all_wf_kind(r@, mode),
            forall|i: int| 0 <= i < r@.len() ==> (#[trigger] r@[i]).spec_record() == orig[i].name,
            forall|i: int|
                0 <= i < r@.len() ==> profile_built_from(
                    mode,
                    &(#[trigger] r@[i]),
                    orig[i].token_counter,
                    idf,
                ),
        decreases rest@.len(),
    {
        let ghost k = r@.len() as int;
        let np = rest.remove(0);
        proof {
            assert(orig.skip(k)[0] == orig[k]);
            assert(np == orig[k]);
            assert(rest@ =~= orig.skip(k + 1));
        }
        let p = make_matchable_name(mode, np, idf);
        r.push(p);
    }
    r
}

/// The to-side candidate index: a flat list, or one list per group key.
pub enum ToIndex<N> {
    Flat(Vec<MatchableName<N>>),
    Grouped(Vec<(String, Vec<MatchableName<N>>)>),
}

/// Find the bucket keyed `g`, if any.
pub open spec fn spec_bucket_lookup<N>(
    bs: Seq<(String, Vec<MatchableName<N>>)>,
    g: Seq<char>,
) -> Option<Seq<MatchableName<N>>>
    decreases bs.len(),
{
    if bs.len() == 0 {
        None
    } else if bs.last().0@ == g {
        Some(bs.last().1@)
    } else {
        spec_bucket_lookup(bs.drop_last(), g)
    }
}

proof fn lemma_bucket_lookup_absent<N>(bs: Seq<(String, Vec<MatchableName<N>>)>, g: Seq<char>)
    requires
        forall|p: int| 0 <= p < bs.len() ==> (#[trigger] bs[p]).0@ != g,
    ensures
        spec_bucket_lookup(bs, g) is None,
    decreases bs.len(),
{
    if bs.len() > 0 {
        assert(forall|p: int| 0 <= p < bs.drop_last().len() ==> bs.drop_last()[p] == bs[p]);
        lemma_bucket_lookup_absent(bs.drop_last(), g);
    }
}

proof fn lemma_bucket_lookup_at<N>(bs: Seq<(String, Vec<MatchableName<N>>)>, i: int)
    requires
        0 <= i < bs.len(),
        forall|p: int, q: int|
            0 <= p < q < bs.len() ==> (#[trigger] bs[p]).0@ != (#[trigger] bs[q]).0@,
    ensures
        spec_bucket_lookup(bs, bs[i].0@) == Some(bs[i].1@),
    decreases bs.len(),
{
    if i == bs.len() - 1 {
        assert(bs.last() == bs[i]);
    } else {
        assert(bs.last().0@ != bs[i].0@);
        assert(forall|p: int, q: int|
            0 <= p < q < bs.drop_last().len() ==> (#[trigger] bs.drop_last()[p]).0@ != (
            #[trigger] bs.drop_last()[q]).0@);
        assert(bs.drop_last()[i] == bs[i]);
        lemma_bucket_lookup_at(bs.drop_last(), i);
    }
}

proof fn lemma_bucket_lookup_found<N>(bs: Seq<(String, Vec<MatchableName<N>>)>, g: Seq<char>)
    requires
        spec_bucket_lookup(bs, g) is Some,
    ensures
        exists|b: int|
            0 <= b < bs.len() && (#[trigger] bs[b]).0@ == g && spec_bucket_lookup(bs, g) == Some(
                bs[b].1@,
            ),
    decreases bs.len(),
{
    if bs.len() > 0 {
        if bs.last().0@ == g {
            assert((#[trigger] bs[bs.len() - 1]).0@ == g && spec_bucket_lookup(bs, g) == Some(
                bs[bs.len() - 1].1@,
            ));
        } else {
            lemma_bucket_lookup_found(bs.drop_last(), g);
            let b = choose|b: int|
                0 <= b < bs.drop_last().len() && (#[trigger] bs.drop_last()[b]).0@ == g
                    && spec_bucket_lookup(bs.drop_last(), g) == Some(bs.drop_last()[b].1@);
            assert((#[trigger] bs[b]).0@ == g && spec_bucket_lookup(bs, g) == Some(bs[b].1@));
        }
    }
}

/// Membership of a record in its group's bucket.
pub open spec fn group_pred<N: UnprocessedName>(g: Seq<char>) -> spec_fn(MatchableName<N>) -> bool {
    |p: MatchableName<N>| p.spec_record().spec_group() == Some(g)
}

/// The buckets partition `profiles`: each bucket holds exactly the
/// profiles of its key's group, in input order, and every profile's group
/// key has a bucket.
pub open spec fn buckets_partition<N: UnprocessedName>(
    bs: Seq<(String, Vec<MatchableName<N>>)>,
    profiles: Seq<MatchableName<N>>,
) -> bool {
    &&& forall|b: int|
        0 <= b < bs.len() ==> (#[trigger] bs[b]).1@ == profiles.filter(
            group_pred(bs[b].0@),
        )
    &&& forall|j: int|
        0 <= j < profiles.len() ==> exists|b: int|
            0 <= b < bs.len() && (#[trigger] profiles[j]).spec_record().spec_group() == Some(
                (#[trigger] bs[b]).0@,
            )
}

/// Every profile stored in any bucket is one of `profiles`.
pub open spec fn bucket_elems_from<N>(
    bs: Seq<(String, Vec<MatchableName<N>>)>,
    profiles: Seq<MatchableName<N>>,
) -> bool {
    forall|b: int, k: int|
        #![trigger bs[b].1@[k]]
        0 <= b < bs.len() && 0 <= k < bs[b].1@.len() ==> exists|j: int|
            0 <= j < profiles.len() && bs[b].1@[k] == #[trigger] profiles[j]
}

/// The view of an optional borrowed group key.
pub open spec fn spec_opt_view(g: Option<&String>) -> Option<Seq<char>> {
    match g {
        None => None,
        Some(s) => Some(s@),
    }
}

impl<N: UnprocessedName> ToIndex<N> {
    /// Buckets are keyed distinctly and non-empty; every stored profile is
    /// well formed, of the mode's kind, and carries its bucket's group key.
    pub open spec fn wf(&self, mode: MatchMode) -> bool {
        match self {
            ToIndex::Flat(v) => all_wf_kind(v@, mode),
            ToIndex::Grouped(bs) => {
                &&& forall|b: int| 0 <= b < bs@.len() ==> all_wf_kind((#[trigger] bs@[b]).1@, mode)
                &&& forall|b: int| 0 <= b < bs@.len() ==> (#[trigger] bs@[b]).1@.len() >= 1
                &&& forall|b: int, k: int|
                    0 <= b < bs@.len() && 0 <= k < bs@[b].1@.len()
                        ==> (#[trigger] bs@[b].1@[k]).spec_record().spec_group() == Some(bs@[b].0@)
                &&& forall|b1: int, b2: int|
                    0 <= b1 < b2 < bs@.len() ==> (#[trigger] bs@[b1]).0@ != (#[trigger] bs@[b2]).0@
            },
        }
    }

    /// Every stored profile is one of `profiles`.
    pub open spec fn provenance(&self, profiles: Seq<MatchableName<N>>) -> bool {
        match self {
            ToIndex::Flat(v) => v@ == profiles,
            ToIndex::Grouped(bs) => bucket_elems_from(bs@, profiles),
        }
    }

    /// The index holds exactly `profiles`: verbatim when flat; as a
    /// partition by group key when grouped (see [`buckets_partition`]).
    pub open spec fn partitions(&self, profiles: Seq<MatchableName<N>>) -> bool {
        match self {
            ToIndex::Flat(v) => v@ == profiles,
            ToIndex::Grouped(bs) => buckets_partition(bs@, profiles),
        }
    }

    /// The candidate list for a from-record with group key `g`: everything
    /// in a flat index; the record's group bucket in a grouped one, and
    /// nothing when that bucket does not exist.
    pub open spec fn spec_candidates_for(&self, g: Option<Seq<char>>) -> Option<
        Seq<MatchableName<N>>,
    > {
        match self {
            ToIndex::Flat(v) => Some(v@),
            ToIndex::Grouped(bs) => match g {
                None => None,
                Some(gs) => spec_bucket_lookup(bs@, gs),
            },
        }
    }

    /// Distinct bucket keys (as the grouped half of [`ToIndex::wf`] has).
    pub open spec fn distinct_keys(&self) -> bool {
        match self {
            ToIndex::Flat(_) => true,
            ToIndex::Grouped(bs) => forall|b1: int, b2: int|
                0 <= b1 < b2 < bs@.len() ==> (#[trigger] bs@[b1]).0@ != (#[trigger] bs@[b2]).0@,
        }
    }

    pub fn candidates_for(&self, g: Option<&String>) -> (r: Option<&Vec<MatchableName<N>>>)
        requires
            self.distinct_keys(),
        ensures
            match r {
                None => self.spec_candidates_for(spec_opt_view(g)) is None,
                Some(v) => self.spec_candidates_for(spec_opt_view(g)) == Some(v@),
            },
    {
        match self {
            ToIndex::Flat(v) => Some(v),
            ToIndex::Grouped(bs) => match g {
                None => None,
                Some(gs) => {
                    let n = bs.len();
                    let mut i: usize = 0;
                    while i < n
                        invariant
                            n == bs@.len(),
                            i <= n,
                            self is Grouped,
                            self->Grouped_0 == *bs,
                            spec_opt_view(g) == Some(gs@),
                            forall|b1: int, b2: int|
                                0 <= b1 < b2 < bs@.len() ==> (#[trigger] bs@[b1]).0@ != (
                                #[trigger] bs@[b2]).0@,
                            forall|p: int| 0 <= p < i ==> (#[trigger] bs@[p]).0@ != gs@,
                        decreases n - i,
                    {
                        if bs[i].0 == *gs {
                            proof {
                                lemma_bucket_lookup_at(bs@, i as int);
                                assert(bs@[i as int].0@ == gs@);
                                assert(spec_bucket_lookup(bs@, gs@) == Some(bs@[i as int].1@));
                                assert(spec_opt_view(g) == Some(gs@));
                                assert(self.spec_candidates_for(spec_opt_view(g)) == Some(
                                    bs@[i as int].1@,
                                ));
                            }
                            return Some(&bs[i].1);
                        }
                        i = i + 1;
                    }
                    proof {
                        lemma_bucket_lookup_absent(bs@, gs@);
                    }
                    None
                },
            },
        }
    }
}


fn find_bucket<N: UnprocessedName>(
    buckets: &Vec<(String, Vec<MatchableName<N>>)>,
    g: &String,
) -> (r: Option<usize>)
    ensures
        match r {
            Some(b) => b < buckets@.len() && buckets@[b as int].0@ == g@,
            None => forall|p: int| 0 <= p < buckets@.len() ==> (#[trigger] buckets@[p]).0@ != g@,
        },
{
    let n = buckets.len();
    let mut i: usize = 0;
    while i < n
        invariant
            n == buckets@.len(),
            i <= n,
            forall|p: int| 0 <= p < i ==> (#[trigger] buckets@[p]).0@ != g@,
        decreases n - i,
    {
        if buckets[i].0 == *g {
            return Some(i);
        }
        i = i + 1;
    }
    None
}

/// Partition the to-side profiles into the candidate index: flat, or one
/// bucket per group key.
pub fn build_to_index<N: UnprocessedName>(
    mode: MatchMode,
    profiles: Vec<MatchableName<N>>,
    group_match: bool,
) -> (r: ToIndex<N>)
    requires
        all_wf_kind(profiles@, mode),
        group_match ==> forall|j: int|
            0 <= j < profiles@.len() ==> (#[trigger] profiles@[j]).spec_record().spec_group()
                is Some,
    ensures
        r.wf(mode),
        r.provenance(profiles@),
        r.partitions(profiles@),
        group_match <==> r is Grouped,
{
    if !group_match {
        return ToIndex::Flat(profiles);
    }
    let ghost orig = profiles@;
    let mut rest = profiles;
    let mut buckets: Vec<(String, Vec<MatchableName<N>>)> = Vec::new();
    while rest.len() > 0
        invariant
            all_wf_kind(orig, mode),
            forall|j: int|
                0 <= j < orig.len() ==> (#[trigger] orig[j]).spec_record().spec_group() is Some,
            rest@.len() <= orig.len(),
            rest@ =~= orig.skip(orig.len() - rest@.len()),
            forall|b: int|
                0 <= b < buckets@.len() ==> all_wf_kind((#[trigger] buckets@[b]).1@, mode),
            forall|b: int| 0 <= b < buckets@.len() ==> (#[trigger] buckets@[b]).1@.len() >= 1,
            forall|b: int, k: int|
                0 <= b < buckets@.len() && 0 <= k < buckets@[b].1@.len()
                    ==> (#[trigger] buckets@[b].1@[k]).spec_record().spec_group() == Some(
                    buckets@[b].0@,
                ),
            forall|b1: int, b2: int|
                0 <= b1 < b2 < buckets@.len() ==> (#[trigger] buckets@[b1]).0@ != (
                #[trigger] buckets@[b2]).0@,
            bucket_elems_from(buckets@, orig),
            buckets_partition(buckets@, orig.take(orig.len() - rest@.len())),
        decreases rest@.len(),
    {
        let ghost i = orig.len() - rest@.len();
        let p = rest.remove(0);
        proof {
            assert(orig.skip(i)[0] == orig[i]);
            assert(p == orig[i]);
            assert(rest@ =~= orig.skip(i + 1));
            assert(p.wf() && made_by(mode, &p));
        }
        let gkey: String = match p.get_name().group_key() {
            Some(g) => g.clone(),
            None => {
                proof {
                    assert(false);
                }
                String::new()
            },
        };
        proof {
            assert(p.spec_record().spec_group() == Some(gkey@));
        }
        let ghost oldb = buckets@;
        match find_bucket(&buckets, &gkey) {
            Some(b) => {
                buckets[b].1.push(p);
                proof {
                    assert(buckets@.len() == oldb.len());
                    assert(forall|q: int|
                        0 <= q < oldb.len() && q != b ==> buckets@[q] == oldb[q]);
                    assert(buckets@[b as int].0 == oldb[b as int].0);
                    assert(buckets@[b as int].1@ =~= oldb[b as int].1@.push(p));
                    assert forall|bb: int|
                        0 <= bb < buckets@.len() implies all_wf_kind(
                        (#[trigger] buckets@[bb]).1@,
                        mode,
                    ) by {
                        if bb == b {
                            assert(all_wf_kind(oldb[bb].1@, mode));
                            assert(forall|k: int|
                                0 <= k < buckets@[bb].1@.len() - 1 ==> buckets@[bb].1@[k]
                                    == oldb[bb].1@[k]);
                        }
                    }
                    assert forall|bb: int, k: int|
                        0 <= bb < buckets@.len() && 0 <= k < buckets@[bb].1@.len() implies (
                    #[trigger] buckets@[bb].1@[k]).spec_record().spec_group() == Some(
                        buckets@[bb].0@,
                    ) by {
                        if bb == b && k == buckets@[bb].1@.len() - 1 {
                            assert(buckets@[bb].1@[k] == p);
                        } else if bb == b {
                            assert(buckets@[bb].1@[k] == oldb[bb].1@[k]);
                        }
                    }
                    assert forall|bb: int, k: int|
                        #![trigger buckets@[bb].1@[k]]
                        0 <= bb < buckets@.len() && 0 <= k < buckets@[bb].1@.len() implies exists|
                        j: int,
                    |
                        0 <= j < orig.len() && buckets@[bb].1@[k] == #[trigger] orig[j] by {
                        if bb == b && k == buckets@[bb].1@.len() - 1 {
                            assert(buckets@[bb].1@[k] == orig[i]);
                        } else {
                            assert(buckets@[bb].1@[k] == oldb[bb].1@[k]);
                            assert(exists|j: int|
                                0 <= j < orig.len() && oldb[bb].1@[k] == #[trigger] orig[j]);
                        }
                    }
                    // the partition: the new element lands exactly in its
                    // group's bucket
                    let processed = orig.take(i);
                    let processed2 = orig.take(i + 1);
                    assert(processed2 =~= processed.push(p));
                    assert forall|bb: int|
                        0 <= bb < buckets@.len() implies (#[trigger] buckets@[bb]).1@
                        == processed2.filter(group_pred(buckets@[bb].0@)) by {
                        let pred = group_pred::<N>(buckets@[bb].0@);
                        processed.lemma_filter_push(p, pred);
                        assert(oldb[bb].1@ == processed.filter(pred));
                        if bb == b {
                            assert(pred(p));
                        } else {
                            assert(oldb[bb].0@ != oldb[b as int].0@);
                            assert(buckets@[bb].0@ != gkey@);
                            assert(!pred(p));
                        }
                    }
                    assert forall|j: int|
                        0 <= j < processed2.len() implies exists|bc: int|
                        0 <= bc < buckets@.len() && (
                        #[trigger] processed2[j]).spec_record().spec_group() == Some(
                            (#[trigger] buckets@[bc]).0@,
                        ) by {
                        if j < i {
                            assert(processed2[j] == processed[j]);
                            let bc = choose|bc: int|
                                0 <= bc < oldb.len() && (
                                #[trigger] processed[j]).spec_record().spec_group() == Some(
                                    (#[trigger] oldb[bc]).0@,
                                );
                            assert(buckets@[bc].0 == oldb[bc].0);
                            assert((#[trigger] buckets@[bc]).0@ == oldb[bc].0@);
                        } else {
                            assert(processed2[j] == p);
                            assert((#[trigger] buckets@[b as int]).0@ == gkey@);
                        }
                    }
                    assert(buckets_partition(buckets@, processed2));
                }
            },
            None => {
                let mut nv: Vec<MatchableName<N>> = Vec::new();
                nv.push(p);
                buckets.push((gkey, nv));
                proof {
                    assert(forall|q: int| 0 <= q < oldb.len() ==> buckets@[q] == oldb[q]);
                    assert(buckets@[oldb.len() as int].1@ =~= seq![p]);
                    assert forall|bb: int, k: int|
                        #![trigger buckets@[bb].1@[k]]
                        0 <= bb < buckets@.len() && 0 <= k < buckets@[bb].1@.len() implies exists|
                        j: int,
                    |
                        0 <= j < orig.len() && buckets@[bb].1@[k] == #[trigger] orig[j] by {
                        if bb == oldb.len() {
                            assert(buckets@[bb].1@[k] == orig[i]);
                        } else {
                            assert(buckets@[bb].1@[k] == oldb[bb].1@[k]);
                            assert(exists|j: int|
                                0 <= j < orig.len() && oldb[bb].1@[k] == #[trigger] orig[j]);
                        }
                    }
                    // the partition: the new group gets its own bucket, and
                    // no earlier record belonged to it
                    let gk = buckets@[oldb.len() as int].0@;
                    let processed = orig.take(i);
                    let processed2 = orig.take(i + 1);
                    assert(processed2 =~= processed.push(p));
                    assert(p.spec_record().spec_group() == Some(gk));
                    assert forall|j: int|
                        0 <= j < processed.len() implies !(group_pred::<N>(gk)(
                        #[trigger] processed[j],
                    )) by {
                        let bc = choose|bc: int|
                            0 <= bc < oldb.len() && (
                            #[trigger] processed[j]).spec_record().spec_group() == Some(
                                (#[trigger] oldb[bc]).0@,
                            );
                        assert(oldb[bc].0@ != gk);
                    }
                    assert(processed.all(|x: MatchableName<N>| !(group_pred::<N>(gk)(x))));
                    processed.lemma_all_neg_filter_empty(group_pred::<N>(gk));
                    assert(processed.filter(group_pred(gk)) =~= Seq::<MatchableName<N>>::empty());
                    assert forall|bb: int|
                        0 <= bb < buckets@.len() implies (#[trigger] buckets@[bb]).1@
                        == processed2.filter(group_pred(buckets@[bb].0@)) by {
                        let pred = group_pred::<N>(buckets@[bb].0@);
                        processed.lemma_filter_push(p, pred);
                        if bb == oldb.len() {
                            assert(pred(p));
                            assert(processed.filter(pred) =~= Seq::<MatchableName<N>>::empty());
                            assert(buckets@[bb].1@ =~= processed2.filter(pred));
                        } else {
                            assert(buckets@[bb] == oldb[bb]);
                            assert(oldb[bb].1@ == processed.filter(pred));
                            assert(oldb[bb].0@ != gk);
                            assert(!pred(p));
                        }
                    }
                    assert forall|j: int|
                        0 <= j < processed2.len() implies exists|bc: int|
                        0 <= bc < buckets@.len() && (
                        #[trigger] processed2[j]).spec_record().spec_group() == Some(
                            (#[trigger] buckets@[bc]).0@,
                        ) by {
                        if j < i {
                            assert(processed2[j] == processed[j]);
                            let bc = choose|bc: int|
                                0 <= bc < oldb.len() && (
                                #[trigger] processed[j]).spec_record().spec_group() == Some(
                                    (#[trigger] oldb[bc]).0@,
                                );
                            assert(buckets@[bc].0 == oldb[bc].0);
                            assert((#[trigger] buckets@[bc]).0@ == oldb[bc].0@);
                        } else {
                            assert(processed2[j] == p);
                            assert((#[trigger] buckets@[oldb.len() as int]).0@ == gk);
                        }
                    }
                    assert(buckets_partition(buckets@, processed2));
                }
            },
        }
    }
    let ghost bsg = buckets@;
    let r = ToIndex::Grouped(buckets);
    proof {
        assert(bucket_elems_from(bsg, orig));
        assert(orig.take(orig.len() as int) =~= orig);
        assert(buckets_partition(bsg, orig));
    }
    r
}

/// A candidate returned by the index is drawn from the indexed profiles.
proof fn lemma_candidate_from_profiles_at<N: UnprocessedName>(
    index: &ToIndex<N>,
    profiles: Seq<MatchableName<N>>,
    g: Option<Seq<char>>,
    k: int,
)
    requires
        index.provenance(profiles),
        index.spec_candidates_for(g) is Some,
        0 <= k < index.spec_candidates_for(g)->Some_0.len(),
    ensures
        exists|j: int|
            0 <= j < profiles.len() && index.spec_candidates_for(g)->Some_0[k] == #[trigger] profiles[j],
{
    let cands = index.spec_candidates_for(g)->Some_0;
    match index {
        ToIndex::Flat(v) => {
            assert(cands[k] == profiles[k]);
        },
        ToIndex::Grouped(bs) => {
            let gs = g->Some_0;
            lemma_bucket_lookup_found(bs@, gs);
            let b = choose|b: int|
                0 <= b < bs@.len() && (#[trigger] bs@[b]).0@ == gs && spec_bucket_lookup(bs@, gs)
                    == Some(bs@[b].1@);
            assert(bs@[b].1@[k] == cands[k]);
            assert(bucket_elems_from(bs@, profiles));
            assert(exists|j: int|
                0 <= j < profiles.len() && bs@[b].1@[k] == #[trigger] profiles[j]);
            let j = choose|j: int|
                0 <= j < profiles.len() && bs@[b].1@[k] == #[trigger] profiles[j];
            assert(0 <= j < profiles.len() && cands[k] == profiles[j]);
        },
    }
}

/// Candidates returned by a well-formed index are well formed and of the
/// index's kind.
proof fn lemma_candidates_wf<N: UnprocessedName>(
    index: &ToIndex<N>,
    mode: MatchMode,
    g: Option<Seq<char>>,
)
    requires
        index.wf(mode),
        index.spec_candidates_for(g) is Some,
    ensures
        all_wf_kind(index.spec_candidates_for(g)->Some_0, mode),
{
    match index {
        ToIndex::Flat(v) => {},
        ToIndex::Grouped(bs) => {
            let gs = g->Some_0;
            lemma_bucket_lookup_found(bs@, gs);
            let b = choose|b: int|
                0 <= b < bs@.len() && (#[trigger] bs@[b]).0@ == gs && spec_bucket_lookup(bs@, gs)
                    == Some(bs@[b].1@);
            assert(all_wf_kind(bs@[b].1@, mode));
        },
    }
}

/// Score one from-record through the index: look its candidate list up by
/// group (none, in grouped mode, when its group has no bucket) and select
/// the best matches from it.
pub fn match_single<N: UnprocessedName>(
    mode: MatchMode,
    from_name: &MatchableName<N>,
    index: &ToIndex<N>,
    match_opts: &MatchOptions,
) -> (best: Vec<MatchResult>)
    requires
        from_name.wf(),
        made_by(mode, from_name),
        index.wf(mode),
        match_opts.wf(),
    ensures
        match index.spec_candidates_for(from_name.spec_record().spec_group()) {
            None => best@.len() == 0,
            Some(cands) => best_matches_spec(from_name, cands, match_opts, best@),
        },
{
    let g = from_name.get_name().group_key();
    proof {
        assert(spec_opt_view(g) == from_name.spec_record().spec_group());
    }
    match index.candidates_for(g) {
        None => Vec::new(),
        Some(cands) => {
            proof {
                lemma_candidates_wf(index, mode, spec_opt_view(g));
                assert forall|j: int|
                    0 <= j < cands@.len() implies (#[trigger] cands@[j]).wf() && same_kind(
                    from_name,
                    &cands@[j],
                ) by {
                    assert(cands@[j].wf() && made_by(mode, &cands@[j]));
                    lemma_made_by_same_kind(mode, from_name, &cands@[j]);
                }
            }
            best_matches_for_single_name(from_name, cands, match_opts)
        },
    }
}

/// One delivered result is sound for its from-record: it carries the
/// from-record's fields, a score above the minimum, and the fields of one
/// of the to-records.
pub open spec fn result_entry_ok<N: UnprocessedName>(
    r: MatchResult,
    from_np: NameProcessed<N>,
    tos: Seq<NameProcessed<N>>,
    min_score: u64,
) -> bool {
    &&& r.from_name@ == from_np.name.spec_name()
    &&& r.from_id@ == from_np.name.spec_idx()
    &&& r.score > min_score
    &&& exists|j: int|
        0 <= j < tos.len() && r.to_name@ == (#[trigger] tos[j]).name.spec_name() && r.to_id@
            == tos[j].name.spec_idx()
}

/// The whole sequential run: build the weight model and the to-side index
/// once, then score every from-record and select its best matches.  Fails
/// exactly on an n-gram window below 2 or an empty reference corpus.
/// The weight model is the IDF model of the corpus, token for token.
pub open spec fn idf_of_corpus<N>(idf: Idf, tos: Seq<NameProcessed<N>>) -> bool {
    &&& idf.wf()
    &&& forall|t: Seq<char>|
        #[trigger] idf.spec_lookup(t) == crate::idf::spec_idf_weight(
            tos.len() as int,
            crate::idf::spec_df(tos, t),
        )
}

/// One from-record's row of the output: `fp` is the record's profile under
/// this mode and weight model, and the row is exactly what the selector
/// delivers for `fp`'s candidate list in the index (nothing when the
/// record's group has no bucket).
pub open spec fn from_row_ok<N: UnprocessedName>(
    mode: MatchMode,
    from_np: NameProcessed<N>,
    idf: Idf,
    index: ToIndex<N>,
    opts: MatchOptions,
    row: Seq<MatchResult>,
    fp: MatchableName<N>,
) -> bool {
    &&& fp.wf()
    &&& profile_built_from(mode, &fp, from_np.token_counter, &idf)
    &&& fp.spec_record() == from_np.name
    &&& match index.spec_candidates_for(fp.spec_record().spec_group()) {
        None => row.len() == 0,
        Some(cands) => best_matches_spec(&fp, cands, &opts, row),
    }
}

/// The run delivered the full output of the reference pipeline: the weight
/// model is the corpus's IDF model, the to-side profiles are the corpus's
/// records profiled under it, the index holds exactly those profiles
/// (partitioned by group in grouped mode), and every output row is the
/// selector's complete result for its from-record.  Each witness is
/// determined by these clauses up to representation, so no clause can be
/// met by dropping or inventing matches.
pub open spec fn pipeline_witness<N: UnprocessedName>(
    mode: MatchMode,
    from_names: Seq<NameProcessed<N>>,
    to_names: Seq<NameProcessed<N>>,
    opts: MatchOptions,
    group_match: bool,
    out: Seq<Vec<MatchResult>>,
    idf: Idf,
    tp: Seq<MatchableName<N>>,
    index: ToIndex<N>,
    fprofiles: Seq<MatchableName<N>>,
) -> bool {
    &&& idf_of_corpus(idf, to_names)
    &&& tp.len() == to_names.len()
    &&& forall|j: int|
        0 <= j < tp.len() ==> (#[trigger] tp[j]).wf() && profile_built_from(
            mode,
            &tp[j],
            to_names[j].token_counter,
            &idf,
        ) && tp[j].spec_record() == to_names[j].name
    &&& index.wf(mode)
    &&& index.partitions(tp)
    &&& (group_match <==> index is Grouped)
    &&& out.len() == from_names.len()
    &&& fprofiles.len() == from_names.len()
    &&& forall|i: int|
        0 <= i < from_names.len() ==> #[trigger] from_row_ok(
            mode,
            from_names[i],
            idf,
            index,
            opts,
            out[i]@,
            fprofiles[i],
        )
}

/// There is a weight model, a to-side profile list and an index as the
/// pipeline builds them, under which the output is complete and sound.
pub open spec fn pipeline_ok<N: UnprocessedName>(
    mode: MatchMode,
    from_names: Seq<NameProcessed<N>>,
    to_names: Seq<NameProcessed<N>>,
    opts: MatchOptions,
    group_match: bool,
    out: Seq<Vec<MatchResult>>,
) -> bool {
    exists|idf: Idf, tp: Seq<MatchableName<N>>, index: ToIndex<N>, fprofiles: Seq<
        MatchableName<N>,
    >|
        #[trigger] pipeline_witness(
            mode,
            from_names,
            to_names,
            opts,
            group_match,
            out,
            idf,
            tp,
            index,
            fprofiles,
        )
}

pub fn match_vec_to_vec<N: UnprocessedName>(
    mode: MatchMode,
    from_names: Vec<NameProcessed<N>>,
    to_names: Vec<NameProcessed<N>>,
    match_opts: &MatchOptions,
    group_match: bool,
) -> (res: Result<Vec<Vec<MatchResult>>, MatchError>)
    requires
        forall|i: int| 0 <= i < from_names@.len() ==> (#[trigger] from_names@[i]).wf(),
        forall|i: int| 0 <= i < to_names@.len() ==> (#[trigger] to_names@[i]).wf(),
        mode matches MatchMode::NGramMatch(w) ==> w <= TOKEN_CAP,
        match_opts.wf(),
        group_match ==> forall|i: int|
            0 <= i < to_names@.len() ==> (#[trigger] to_names@[i]).name.spec_group() is Some,
    ensures
        res is Err <==> ((mode matches MatchMode::NGramMatch(w) && w < 2) || to_names@.len()
            == 0),
        (mode matches MatchMode::NGramMatch(w) && w < 2) ==> res == Err::<
            Vec<Vec<MatchResult>>,
            MatchError,
        >(MatchError::InvalidNGramWindow),
        (!(mode matches MatchMode::NGramMatch(w) && w < 2) && to_names@.len() == 0) ==> res
            == Err::<Vec<Vec<MatchResult>>, MatchError>(MatchError::EmptyReferenceCorpus),
        res matches Ok(out) ==> out@.len() == from_names@.len(),
        res matches Ok(out) ==> pipeline_ok(
            mode,
            from_names@,
            to_names@,
            *match_opts,
            group_match,
            out@,
        ),
        res matches Ok(out) ==> forall|i: int, k: int|
            0 <= i < out@.len() && 0 <= k < (#[trigger] out@[i])@.len() ==> result_entry_ok(
                #[trigger] out@[i]@[k],
                from_names@[i],
                to_names@,
                match_opts.minimum_score,
            ),
{
    if let MatchMode::NGramMatch(w) = mode {
        if w < 2 {
            return Err(MatchError::InvalidNGramWindow);
        }
    }
    proof {
        assert forall|i: int|
            0 <= i < to_names@.len() implies (#[trigger] to_names@[i]).doc_wf() by {}
    }
    let idf = match Idf::new(&to_names) {
        Ok(v) => v,
        Err(e) => {
            return Err(e);
        },
    };
    let ghost to_orig = to_names@;
    let to_profiles = make_matchable_names(mode, to_names, &idf);
    let ghost tp = to_profiles@;
    let index = build_to_index(mode, to_profiles, group_match);
    let ghost from_orig = from_names@;
    proof {
        assert(idf_of_corpus(idf, to_orig));
    }
    let mut rest = from_names;
    let mut out: Vec<Vec<MatchResult>> = Vec::new();
    let ghost mut fps = Seq::<MatchableName<N>>::empty();
    while rest.len() > 0
        invariant
            idf.wf(),
            mode_wf(mode),
            match_opts.wf(),
            index.wf(mode),
            index.provenance(tp),
            index.partitions(tp),
            group_match <==> index is Grouped,
            idf_of_corpus(idf, to_orig),
            tp.len() == to_orig.len(),
            forall|j: int| 0 <= j < tp.len() ==> (#[trigger] tp[j]).spec_record() == to_orig[j].name,
            forall|j: int|
                0 <= j < tp.len() ==> (#[trigger] tp[j]).wf() && profile_built_from(
                    mode,
                    &tp[j],
                    to_orig[j].token_counter,
                    &idf,
                ),
            forall|i: int| 0 <= i < from_orig.len() ==> (#[trigger] from_orig[i]).wf(),
            rest@.len() <= from_orig.len(),
            out@.len() + rest@.len() == from_orig.len(),
            rest@ =~= from_orig.skip(out@.len() as int),
            fps.len() == out@.len(),
            forall|i: int|
                0 <= i < out@.len() ==> #[trigger] from_row_ok(
                    mode,
                    from_orig[i],
                    idf,
                    index,
                    *match_opts,
                    out@[i]@,
                    fps[i],
                ),
            forall|i: int, k: int|
                0 <= i < out@.len() && 0 <= k < (#[trigger] out@[i])@.len() ==> result_entry_ok(
                    #[trigger] out@[i]@[k],
                    from_orig[i],
                    to_orig,
                    match_opts.minimum_score,
                ),
        decreases rest@.len(),
    {
        let ghost i = out@.len() as int;
        let np = rest.remove(0);
        proof {
            assert(from_orig.skip(i)[0] == from_orig[i]);
            assert(np == from_orig[i]);
            assert(rest@ =~= from_orig.skip(i + 1));
        }
        let fp = make_matchable_name(mode, np, &idf);
        let rs = match_single(mode, &fp, &index, match_opts);
        proof {
            let g = fp.spec_record().spec_group();
            match index.spec_candidates_for(g) {
                None => {
                    assert(rs@.len() == 0);
                },
                Some(cands) => {
                    assert(best_matches_spec(&fp, cands, match_opts, rs@));
                    let sel = spec_run_selector(
                        spec_scores(&fp, cands),
                        match_opts.minimum_score,
                        match_opts.num_results as int,
                        spec_rule_of(match_opts),
                    );
                    let ds = choose|ds: Seq<(u64, u64)>|
                        #[trigger] is_drained_output(ds, sel.0, sel.1) && results_match(
                            ds,
                            &fp,
                            cands,
                            rs@,
                        );
                    assert forall|k: int|
                        0 <= k < rs@.len() implies result_entry_ok(
                        #[trigger] rs@[k],
                        from_orig[i],
                        to_orig,
                        match_opts.minimum_score,
                    ) by {
                        let tag = ds[k].1 as int;
                        assert(0 <= tag < cands.len());
                        assert(rs@[k].to_name@ == cands[tag].spec_record().spec_name());
                        assert(rs@[k].to_id@ == cands[tag].spec_record().spec_idx());
                        lemma_candidate_from_profiles_at(&index, tp, g, tag);
                        let j = choose|j: int| 0 <= j < tp.len() && cands[tag] == #[trigger] tp[j];
                        assert(tp[j].spec_record() == to_orig[j].name);
                        assert(rs@[k].to_name@ == to_orig[j].name.spec_name() && rs@[k].to_id@
                            == to_orig[j].name.spec_idx());
                    }
                },
            }
        }
        proof {
            fps = fps.push(fp);
            assert(from_row_ok(mode, from_orig[i], idf, index, *match_opts, rs@, fp));
        }
        out.push(rs);
    }
    proof {
        assert(out@.len() == from_orig.len());
        assert(pipeline_witness(
            mode,
            from_orig,
            to_orig,
            *match_opts,
            group_match,
            out@,
            idf,
            tp,
            index,
            fps,
        ));
        assert(pipeline_ok(mode, from_orig, to_orig, *match_opts, group_match, out@));
    }
    Ok(out)
}

} // verus!
