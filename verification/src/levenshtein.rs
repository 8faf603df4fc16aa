//! Edit-distance profiles: token pairs are compared by length-normalized
//! Levenshtein or Damerau-Levenshtein similarity, computed by the `strsim`
//! crate, and combined by the greedy assignment scorer.

use crate::fixed::{lemma_u64_mul_fits, SCALE};
use crate::idf::Idf;
use crate::names::{NameContainer, NameProcessed, UnprocessedName, TOKEN_CAP};
use crate::norm::{build_weights, spec_norm_sq_prefix, NORM_SQ_BOUND, SCALE_U128};
use crate::score::{
    candidate_score, lemma_counts_sum, score_combination_queue, spec_candidate,
    spec_combination_score, Candidate,
};
use crate::strutil::char_count;
use crate::tokens::TokenCounter;
use vstd::prelude::*;

verus! {

/// The Levenshtein distance of two character sequences: the least number
/// of single-character insertions, deletions and substitutions turning one
/// into the other.
pub open spec fn spec_levenshtein(a: Seq<char>, b: Seq<char>) -> int
    decreases a.len() + b.len(),
{
    if a.len() == 0 {
        b.len() as int
    } else if b.len() == 0 {
        a.len() as int
    } else {
        let del = spec_levenshtein(a.drop_last(), b) + 1;
        let ins = spec_levenshtein(a, b.drop_last()) + 1;
        let sub = spec_levenshtein(a.drop_last(), b.drop_last()) + if a.last() == b.last() {
            0int
        } else {
            1int
        };
        let m1 = if del <= ins {
            del
        } else {
            ins
        };
        if m1 <= sub {
            m1
        } else {
            sub
        }
    }
}

/// The Damerau-Levenshtein distance (with unrestricted transpositions) of
/// two character sequences, as `strsim` computes it.  Its value depends on
/// the two sequences alone; spelling it out would restate the whole
/// dynamic program, so it is left uninterpreted and pinned to the `strsim`
/// call below.
pub uninterp spec fn dl_distance_of(a: Seq<char>, b: Seq<char>) -> nat;

/// Relies on strsim::levenshtein: the character-level Levenshtein distance
/// of the two strings.
pub assume_specification [ strsim::levenshtein ](a: &str, b: &str) -> (r: usize)
    ensures
        r == spec_levenshtein(a@, b@),
;

/// Relies on strsim::damerau_levenshtein: the character-level
/// Damerau-Levenshtein distance, a function of the two strings alone.
pub assume_specification [ strsim::damerau_levenshtein ](a: &str, b: &str) -> (r: usize)
    ensures
        r == dl_distance_of(a@, b@),
;

/// Length-normalized edit similarity in fixed point: `1 - d / max(la, lb)`,
/// with 1.0 for two empty strings and the distance capped at the longer
/// length as a defensive bound.
pub open spec fn spec_edit_sim(d: int, la: int, lb: int) -> int {
    let mx = if la <= lb {
        lb
    } else {
        la
    };
    if mx <= 0 {
        SCALE as int
    } else {
        let dc = if d <= mx {
            d
        } else {
            mx
        };
        ((mx - dc) * SCALE) / mx
    }
}

fn edit_similarity(d: usize, la: usize, lb: usize) -> (sim: u64)
    ensures
        sim as int == spec_edit_sim(d as int, la as int, lb as int),
        sim <= SCALE,
{
    let mx = if la <= lb {
        lb
    } else {
        la
    };
    if mx == 0 {
        return SCALE;
    }
    let dc = if d <= mx {
        d
    } else {
        mx
    };
    proof {
        assert(((mx - dc) as int) * (SCALE as int) <= (0xFFFF_FFFF_FFFF_FFFFu64 as int) * (
        SCALE as int)) by (nonlinear_arith)
            requires 0 <= (mx - dc) as int <= 0xFFFF_FFFF_FFFF_FFFFu64 as int;
    }
    let v: u128 = (((mx - dc) as u128) * SCALE_U128) / (mx as u128);
    proof {
        assert(v <= SCALE) by (nonlinear_arith)
            requires 0 <= (mx - dc) as int <= mx as int && mx as int >= 1
                && SCALE == 1_000_000_000u64 && SCALE_U128 == 1_000_000_000u128
                && v == (((mx - dc) as int) * (SCALE_U128 as int)) / (mx as int);
    }
    v as u64
}

/// A record weighted for Levenshtein matching.
pub struct NameLevenshtein<N> {
    name: N,
    token_counter: TokenCounter,
    weights: Vec<u64>,
    norm_sq: u64,
}

/// A record weighted for Damerau-Levenshtein matching.
pub struct NameDamerauLevenshtein<N> {
    name: N,
    token_counter: TokenCounter,
    weights: Vec<u64>,
    norm_sq: u64,
}

impl<N> NameContainer<N> for NameLevenshtein<N> where N: UnprocessedName {
    fn get_name(&self) -> &N {
        &self.name
    }
}

impl<N> NameContainer<N> for NameDamerauLevenshtein<N> where N: UnprocessedName {
    fn get_name(&self) -> &N {
        &self.name
    }
}

/// The count vector of a profile's tokens, by index.
pub open spec fn spec_counts_of(pairs: Seq<(Seq<char>, u64)>) -> Seq<u64> {
    pairs.map_values(|p: (Seq<char>, u64)| p.1)
}

/// The cross-product candidate queue under a given pairwise similarity.
pub open spec fn spec_edit_queue(
    ap: Seq<(Seq<char>, u64)>,
    aw: Seq<u64>,
    bp: Seq<(Seq<char>, u64)>,
    bw: Seq<u64>,
    sim: spec_fn(Seq<char>, Seq<char>) -> int,
) -> Seq<Candidate> {
    let fl = ap.len() as int;
    let tl = bp.len() as int;
    Seq::new(
        (fl * tl) as nat,
        |k: int|
            (
                spec_candidate(
                    sim(ap[k / tl].0, bp[k % tl].0),
                    aw[k / tl] as int,
                    bw[k % tl] as int,
                ) as u64,
                (k / tl) as usize,
                (k % tl) as usize,
            ),
    )
}

/// The pairwise similarity of the Levenshtein mode.
pub open spec fn spec_lev_sim() -> spec_fn(Seq<char>, Seq<char>) -> int {
    |a: Seq<char>, b: Seq<char>|
        spec_edit_sim(spec_levenshtein(a, b), a.len() as int, b.len() as int)
}

/// The pairwise similarity of the Damerau-Levenshtein mode.
pub open spec fn spec_dl_sim() -> spec_fn(Seq<char>, Seq<char>) -> int {
    |a: Seq<char>, b: Seq<char>|
        spec_edit_sim(dl_distance_of(a, b) as int, a.len() as int, b.len() as int)
}

/// The Levenshtein distance is symmetric in its two arguments.
pub proof fn lemma_levenshtein_symmetric(a: Seq<char>, b: Seq<char>)
    ensures
        spec_levenshtein(a, b) == spec_levenshtein(b, a),
    decreases a.len() + b.len(),
{
    if a.len() > 0 && b.len() > 0 {
        lemma_levenshtein_symmetric(a.drop_last(), b);
        lemma_levenshtein_symmetric(a, b.drop_last());
        lemma_levenshtein_symmetric(a.drop_last(), b.drop_last());
    }
}

/// The Levenshtein mode's pairwise similarity is symmetric.
pub proof fn lemma_lev_sim_symmetric(x: Seq<char>, y: Seq<char>)
    ensures
        spec_lev_sim()(x, y) == spec_lev_sim()(y, x),
{
    lemma_levenshtein_symmetric(x, y);
}

/// Symmetry of the cross-product candidate set: for a side-symmetric
/// pairwise similarity, swapping the two profiles transposes every
/// candidate (the entry pairing a's token `i` with b's token `j`
/// reappears pairing `j` with `i`, with the same score).  Together with
/// [`crate::score::lemma_greedy_transpose`]
/// this pins the symmetry of everything around the sort; the sort itself
/// resolves equal-score ties by generation order, which is the one place
/// the two directions may differ.
pub proof fn lemma_edit_queue_transposed(
    ap: Seq<(Seq<char>, u64)>,
    aw: Seq<u64>,
    bp: Seq<(Seq<char>, u64)>,
    bw: Seq<u64>,
    sim: spec_fn(Seq<char>, Seq<char>) -> int,
)
    requires
        forall|x: Seq<char>, y: Seq<char>| #[trigger] sim(x, y) == sim(y, x),
    ensures
        spec_edit_queue(bp, bw, ap, aw, sim).len() == spec_edit_queue(ap, aw, bp, bw, sim).len(),
        forall|i: int, j: int|
            #![trigger spec_edit_queue(ap, aw, bp, bw, sim)[i * bp.len() + j]]
            0 <= i < ap.len() && 0 <= j < bp.len() ==> {
                let e = spec_edit_queue(ap, aw, bp, bw, sim)[i * bp.len() + j];
                spec_edit_queue(bp, bw, ap, aw, sim)[j * ap.len() + i] == (e.0, e.2, e.1)
            },
{
    let fl = ap.len() as int;
    let tl = bp.len() as int;
    let q1 = spec_edit_queue(ap, aw, bp, bw, sim);
    let q2 = spec_edit_queue(bp, bw, ap, aw, sim);
    assert(q1.len() == fl * tl);
    assert(q2.len() == tl * fl);
    assert(fl * tl == tl * fl) by (nonlinear_arith);
    assert forall|i: int, j: int|
        #![trigger q1[i * tl + j]]
        0 <= i < fl && 0 <= j < tl implies {
        let e = q1[i * tl + j];
        q2[j * fl + i] == (e.0, e.2, e.1)
    } by {
        let k1 = i * tl + j;
        let k2 = j * fl + i;
        assert(0 <= k1 < fl * tl) by (nonlinear_arith)
            requires k1 == i * tl + j && 0 <= i < fl && 0 <= j < tl;
        assert(0 <= k2 < tl * fl) by (nonlinear_arith)
            requires k2 == j * fl + i && 0 <= i < fl && 0 <= j < tl;
        vstd::arithmetic::div_mod::lemma_fundamental_div_mod_converse_div(k1, tl, i, j);
        vstd::arithmetic::div_mod::lemma_fundamental_div_mod_converse_mod(k1, tl, i, j);
        vstd::arithmetic::div_mod::lemma_fundamental_div_mod_converse_div(k2, fl, j, i);
        vstd::arithmetic::div_mod::lemma_fundamental_div_mod_converse_mod(k2, fl, j, i);
        assert(sim(ap[i].0, bp[j].0) == sim(bp[j].0, ap[i].0));
        crate::score::lemma_candidate_symmetric(
            sim(ap[i].0, bp[j].0),
            aw[i] as int,
            bw[j] as int,
        );
    }
}

/// The transposition above, for two Levenshtein profiles.
pub proof fn lemma_lev_queues_transposed<N>(a: &NameLevenshtein<N>, b: &NameLevenshtein<N>)
    ensures
        spec_edit_queue(
            b.spec_pairs(),
            b.spec_weights(),
            a.spec_pairs(),
            a.spec_weights(),
            spec_lev_sim(),
        ).len() == spec_edit_queue(
            a.spec_pairs(),
            a.spec_weights(),
            b.spec_pairs(),
            b.spec_weights(),
            spec_lev_sim(),
        ).len(),
        forall|i: int, j: int|
            #![trigger spec_edit_queue(a.spec_pairs(), a.spec_weights(), b.spec_pairs(), b.spec_weights(), spec_lev_sim())[i * b.spec_pairs().len() + j]]
            0 <= i < a.spec_pairs().len() && 0 <= j < b.spec_pairs().len() ==> {
                let e = spec_edit_queue(
                    a.spec_pairs(),
                    a.spec_weights(),
                    b.spec_pairs(),
                    b.spec_weights(),
                    spec_lev_sim(),
                )[i * b.spec_pairs().len() + j];
                spec_edit_queue(
                    b.spec_pairs(),
                    b.spec_weights(),
                    a.spec_pairs(),
                    a.spec_weights(),
                    spec_lev_sim(),
                )[j * a.spec_pairs().len() + i] == (e.0, e.2, e.1)
            },
{
    assert forall|x: Seq<char>, y: Seq<char>| #[trigger] spec_lev_sim()(x, y) == spec_lev_sim()(
        y,
        x,
    ) by {
        lemma_lev_sim_symmetric(x, y);
    }
    lemma_edit_queue_transposed(
        a.spec_pairs(),
        a.spec_weights(),
        b.spec_pairs(),
        b.spec_weights(),
        spec_lev_sim(),
    );
}

/// Which edit distance a profile scores with.
#[derive(Clone, Copy, PartialEq, Eq, Structural)]
enum EditKind {
    Levenshtein,
    DamerauLevenshtein,
}

impl EditKind {
    /// The pairwise similarity this kind induces.
    spec fn spec_sim(self) -> spec_fn(Seq<char>, Seq<char>) -> int {
        match self {
            EditKind::Levenshtein => spec_lev_sim(),
            EditKind::DamerauLevenshtein => spec_dl_sim(),
        }
    }
}

/// Shared well-formedness of the two edit-distance profiles.
pub open spec fn edit_parts_wf(counter: TokenCounter, ws: Seq<u64>, norm_sq: int) -> bool {
    &&& counter.wf()
    &&& counter.total() <= TOKEN_CAP
    &&& ws.len() == counter.view_entries().len()
    &&& forall|i: int| 0 <= i < ws.len() ==> #[trigger] ws[i] <= crate::fixed::LN_BOUND
    &&& norm_sq == spec_norm_sq_prefix(
        counter.view_entries(),
        ws,
        counter.view_entries().len() as int,
    )
    &&& norm_sq <= NORM_SQ_BOUND
}

/// Score two token-weight profiles under the given edit distance: build
/// the cross-product candidate queue and combine it greedily.
fn edit_match_score(
    kind: EditKind,
    a_counter: &TokenCounter,
    a_ws: &Vec<u64>,
    a_nsq: u64,
    b_counter: &TokenCounter,
    b_ws: &Vec<u64>,
    b_nsq: u64,
) -> (score: u64)
    requires
        edit_parts_wf(*a_counter, a_ws@, a_nsq as int),
        edit_parts_wf(*b_counter, b_ws@, b_nsq as int),
    ensures
        score as int == spec_combination_score(
            spec_edit_queue(
                a_counter.view_entries(),
                a_ws@,
                b_counter.view_entries(),
                b_ws@,
                kind.spec_sim(),
            ),
            spec_counts_of(a_counter.view_entries()),
            spec_counts_of(b_counter.view_entries()),
            a_nsq as int,
            b_nsq as int,
        ),
{
    let ghost ap = a_counter.view_entries();
    let ghost bp = b_counter.view_entries();
    let ghost qspec = spec_edit_queue(ap, a_ws@, bp, b_ws@, kind.spec_sim());
    let fl = a_counter.num_tokens();
    let tl = b_counter.num_tokens();
    let ghost tli = tl as int;

    let mut queue: Vec<Candidate> = Vec::new();
    let mut i: usize = 0;
    proof {
        assert(fl as int * tli >= 0) by (nonlinear_arith)
            requires fl as int >= 0 && tli >= 0;
        assert(qspec.len() == fl as int * tli);
        assert(0 as int * tli == 0) by (nonlinear_arith);
    }
    while i < fl
        invariant
            edit_parts_wf(*a_counter, a_ws@, a_nsq as int),
            edit_parts_wf(*b_counter, b_ws@, b_nsq as int),
            ap == a_counter.view_entries(),
            bp == b_counter.view_entries(),
            qspec == spec_edit_queue(ap, a_ws@, bp, b_ws@, kind.spec_sim()),
            fl == ap.len(),
            tl == bp.len(),
            tli == tl as int,
            i <= fl,
            queue@.len() == i as int * tli,
            qspec.len() == fl as int * tli,
            forall|k: int| 0 <= k < queue@.len() ==> #[trigger] queue@[k] == qspec[k],
            crate::score::queue_ok(queue@, fl as int, tli),
        decreases fl - i,
    {
        let mut j: usize = 0;
        proof {
            assert(i as int * tli + 0 == i as int * tli);
        }
        while j < tl
            invariant
                edit_parts_wf(*a_counter, a_ws@, a_nsq as int),
                edit_parts_wf(*b_counter, b_ws@, b_nsq as int),
                ap == a_counter.view_entries(),
                bp == b_counter.view_entries(),
                qspec == spec_edit_queue(ap, a_ws@, bp, b_ws@, kind.spec_sim()),
                fl == ap.len(),
                tl == bp.len(),
                tli == tl as int,
                i < fl,
                j <= tl,
                queue@.len() == i as int * tli + j as int,
                qspec.len() == fl as int * tli,
                forall|k: int| 0 <= k < queue@.len() ==> #[trigger] queue@[k] == qspec[k],
                crate::score::queue_ok(queue@, fl as int, tli),
            decreases tl - j,
        {
            let sa = a_counter.token_at(i);
            let sb = b_counter.token_at(j);
            let la = char_count(sa.as_str());
            let lb = char_count(sb.as_str());
            let d: usize = match kind {
                EditKind::Levenshtein => strsim::levenshtein(sa.as_str(), sb.as_str()),
                EditKind::DamerauLevenshtein => strsim::damerau_levenshtein(
                    sa.as_str(),
                    sb.as_str(),
                ),
            };
            let sim = edit_similarity(d, la, lb);
            proof {
                assert(sim as int == kind.spec_sim()(ap[i as int].0, bp[j as int].0));
            }
            let c = candidate_score(sim, a_ws[i], b_ws[j]);
            let ghost k = i as int * tli + j as int;
            proof {
                assert(0 <= k < fl as int * tli) by (nonlinear_arith)
                    requires k == i as int * tli + j as int && 0 <= i < fl && 0 <= j < tli && 0
                        <= tli;
                vstd::arithmetic::div_mod::lemma_fundamental_div_mod_converse_div(
                    k,
                    tli,
                    i as int,
                    j as int,
                );
                vstd::arithmetic::div_mod::lemma_fundamental_div_mod_converse_mod(
                    k,
                    tli,
                    i as int,
                    j as int,
                );
            }
            queue.push((c, i, j));
            proof {
                assert(queue@[k] == qspec[k]);
            }
            j = j + 1;
        }
        proof {
            assert(i as int * tli + tli == (i as int + 1) * tli) by (nonlinear_arith);
        }
        i = i + 1;
    }
    proof {
        assert(queue@ =~= qspec);
    }

    let mut fc: Vec<u64> = Vec::new();
    let mut p: usize = 0;
    while p < fl
        invariant
            edit_parts_wf(*a_counter, a_ws@, a_nsq as int),
            ap == a_counter.view_entries(),
            fl == ap.len(),
            p <= fl,
            fc@.len() == p,
            forall|q: int| 0 <= q < p ==> #[trigger] fc@[q] == ap[q].1,
        decreases fl - p,
    {
        fc.push(a_counter.count_at(p));
        p = p + 1;
    }
    let mut tc: Vec<u64> = Vec::new();
    let mut p2: usize = 0;
    while p2 < tl
        invariant
            edit_parts_wf(*b_counter, b_ws@, b_nsq as int),
            bp == b_counter.view_entries(),
            tl == bp.len(),
            p2 <= tl,
            tc@.len() == p2,
            forall|q: int| 0 <= q < p2 ==> #[trigger] tc@[q] == bp[q].1,
        decreases tl - p2,
    {
        tc.push(b_counter.count_at(p2));
        p2 = p2 + 1;
    }
    proof {
        assert(fc@ =~= spec_counts_of(ap));
        assert(tc@ =~= spec_counts_of(bp));
        lemma_counts_sum(fc@, ap);
        assert(crate::score::queue_ok(queue@, fc@.len() as int, tc@.len() as int));
    }
    score_combination_queue(queue, &fc, &tc, a_nsq, b_nsq)
}

impl<N> NameLevenshtein<N> {
    pub closed spec fn spec_name(&self) -> N {
        self.name
    }

    pub closed spec fn spec_counter(&self) -> TokenCounter {
        self.token_counter
    }

    pub closed spec fn spec_weights(&self) -> Seq<u64> {
        self.weights@
    }

    pub closed spec fn spec_norm_sq(&self) -> int {
        self.norm_sq as int
    }

    pub open spec fn spec_pairs(&self) -> Seq<(Seq<char>, u64)> {
        self.spec_counter().view_entries()
    }

    pub open spec fn wf(&self) -> bool {
        edit_parts_wf(self.spec_counter(), self.spec_weights(), self.spec_norm_sq())
    }

    /// Weight each token of the processed record by the IDF model.
    pub fn new(np: NameProcessed<N>, idf: &Idf) -> (r: NameLevenshtein<N>)
        requires
            np.wf(),
            idf.wf(),
        ensures
            r.wf(),
            r.spec_name() == np.name,
            r.spec_counter() == np.token_counter,
            forall|i: int|
                0 <= i < r.spec_weights().len() ==> #[trigger] r.spec_weights()[i] as int
                    == idf.spec_lookup(r.spec_pairs()[i].0),
    {
        let NameProcessed { name, token_counter } = np;
        let (weights, norm_sq) = build_weights(&token_counter, idf);
        NameLevenshtein { name, token_counter, weights, norm_sq }
    }

    pub fn name(&self) -> (r: &N)
        ensures
            r == &self.spec_name(),
    {
        &self.name
    }

    pub fn norm_sq(&self) -> (r: u64)
        ensures
            r as int == self.spec_norm_sq(),
    {
        self.norm_sq
    }

    /// Score this record against `to_name` under normalized Levenshtein
    /// similarity.
    pub fn compute_match_score(&self, to_name: &Self) -> (score: u64)
        requires
            self.wf(),
            to_name.wf(),
        ensures
            score as int == spec_lev_score(self, to_name),
            score <= SCALE,
    {
        edit_match_score(
            EditKind::Levenshtein,
            &self.token_counter,
            &self.weights,
            self.norm_sq,
            &to_name.token_counter,
            &to_name.weights,
            to_name.norm_sq,
        )
    }
}

/// The Levenshtein-mode score of a pair of records.
pub open spec fn spec_lev_score<N>(a: &NameLevenshtein<N>, b: &NameLevenshtein<N>) -> int {
    spec_combination_score(
        spec_edit_queue(
            a.spec_pairs(),
            a.spec_weights(),
            b.spec_pairs(),
            b.spec_weights(),
            spec_lev_sim(),
        ),
        spec_counts_of(a.spec_pairs()),
        spec_counts_of(b.spec_pairs()),
        a.spec_norm_sq(),
        b.spec_norm_sq(),
    )
}

impl<N> NameDamerauLevenshtein<N> {
    pub closed spec fn spec_name(&self) -> N {
        self.name
    }

    pub closed spec fn spec_counter(&self) -> TokenCounter {
        self.token_counter
    }

    pub closed spec fn spec_weights(&self) -> Seq<u64> {
        self.weights@
    }

    pub closed spec fn spec_norm_sq(&self) -> int {
        self.norm_sq as int
    }

    pub open spec fn spec_pairs(&self) -> Seq<(Seq<char>, u64)> {
        self.spec_counter().view_entries()
    }

    pub open spec fn wf(&self) -> bool {
        edit_parts_wf(self.spec_counter(), self.spec_weights(), self.spec_norm_sq())
    }

    /// Weight each token of the processed record by the IDF model.
    pub fn new(np: NameProcessed<N>, idf: &Idf) -> (r: NameDamerauLevenshtein<N>)
        requires
            np.wf(),
            idf.wf(),
        ensures
            r.wf(),
            r.spec_name() == np.name,
            r.spec_counter() == np.token_counter,
            forall|i: int|
                0 <= i < r.spec_weights().len() ==> #[trigger] r.spec_weights()[i] as int
                    == idf.spec_lookup(r.spec_pairs()[i].0),
    {
        let NameProcessed { name, token_counter } = np;
        let (weights, norm_sq) = build_weights(&token_counter, idf);
        NameDamerauLevenshtein { name, token_counter, weights, norm_sq }
    }

    pub fn name(&self) -> (r: &N)
        ensures
            r == &self.spec_name(),
    {
        &self.name
    }

    pub fn norm_sq(&self) -> (r: u64)
        ensures
            r as int == self.spec_norm_sq(),
    {
        self.norm_sq
    }

    /// Score this record against `to_name` under normalized
    /// Damerau-Levenshtein similarity.
    pub fn compute_match_score(&self, to_name: &Self) -> (score: u64)
        requires
            self.wf(),
            to_name.wf(),
        ensures
            score as int == spec_dl_score(self, to_name),
            score <= SCALE,
    {
        edit_match_score(
            EditKind::DamerauLevenshtein,
            &self.token_counter,
            &self.weights,
            self.norm_sq,
            &to_name.token_counter,
            &to_name.weights,
            to_name.norm_sq,
        )
    }
}

/// The Damerau-Levenshtein-mode score of a pair of records.
pub open spec fn spec_dl_score<N>(a: &NameDamerauLevenshtein<N>, b: &NameDamerauLevenshtein<N>) -> int {
    spec_combination_score(
        spec_edit_queue(
            a.spec_pairs(),
            a.spec_weights(),
            b.spec_pairs(),
            b.spec_weights(),
            spec_dl_sim(),
        ),
        spec_counts_of(a.spec_pairs()),
        spec_counts_of(b.spec_pairs()),
        a.spec_norm_sq(),
        b.spec_norm_sq(),
    )
}

} // verus!
