//! The greedy assignment scorer shared by the fuzzy match modes.
//!
//! All token-pair candidates are ordered by score; the best remaining
//! candidate is taken repeatedly, each take using up one unit of its two
//! tokens' multiplicities; a candidate whose token is exhausted is passed
//! over.  (Passing an exhausted candidate over when it is reached is the
//! same as removing it eagerly, since multiplicities only ever decrease.)
//! Ties between equal scores resolve to the candidate pushed later.

use crate::fixed::{
    is_isqrt, isqrt_u128, lemma_isqrt_exists, lemma_u64_mul_fits, spec_clamp_score, spec_isqrt,
    SCALE, W2_BOUND,
};
use crate::names::TOKEN_CAP;
use crate::norm::{NORM_SQ_BOUND, SCALE_U128};
use vstd::prelude::*;

verus! {

/// A candidate: a pairwise score and the indices of the from-token and the
/// to-token it pairs.
pub type Candidate = (u64, usize, usize);

/// Sum of a sequence of integers.
pub open spec fn seq_int_sum(s: Seq<int>) -> int
    decreases s.len(),
{
    if s.len() == 0 {
        0
    } else {
        seq_int_sum(s.drop_last()) + s.last()
    }
}

/// Sum of a sequence of counts, as an integer.
pub open spec fn seq_u64_sum(s: Seq<u64>) -> int
    decreases s.len(),
{
    if s.len() == 0 {
        0
    } else {
        seq_u64_sum(s.drop_last()) + s.last()
    }
}

/// Every candidate's score is bounded and its indices are in range.
pub open spec fn queue_ok(q: Seq<Candidate>, flen: int, tlen: int) -> bool {
    forall|k: int|
        0 <= k < q.len() ==> (#[trigger] q[k]).0 <= W2_BOUND && q[k].1 < flen && q[k].2 < tlen
}

/// Insert `e` into `s` after every element whose score is at most `e`'s:
/// the insertion step of a stable sort by ascending score.
pub open spec fn spec_insert_by_score(s: Seq<Candidate>, e: Candidate) -> Seq<Candidate>
    decreases s.len(),
{
    if s.len() == 0 {
        seq![e]
    } else if s.last().0 <= e.0 {
        s.push(e)
    } else {
        spec_insert_by_score(s.drop_last(), e).push(s.last())
    }
}

/// Stable sort by ascending score: later queue entries sort after equal
/// scores, so the highest-scoring candidate taken first among ties is the
/// one generated last.
pub open spec fn spec_sort_by_score(s: Seq<Candidate>) -> Seq<Candidate>
    decreases s.len(),
{
    if s.len() == 0 {
        Seq::<Candidate>::empty()
    } else {
        spec_insert_by_score(spec_sort_by_score(s.drop_last()), s.last())
    }
}

/// The greedy accumulation over a score-ascending queue, walking from the
/// best (last) candidate down: take a candidate whenever both its tokens
/// still have multiplicity left, using one unit of each.
pub open spec fn spec_greedy(q: Seq<Candidate>, rf: Seq<int>, rt: Seq<int>) -> int
    decreases q.len(),
{
    if q.len() == 0 {
        0
    } else {
        let e = q.last();
        let q2 = q.drop_last();
        if e.1 < rf.len() && e.2 < rt.len() && rf[e.1 as int] >= 1 && rt[e.2 as int] >= 1 {
            e.0 + spec_greedy(
                q2,
                rf.update(e.1 as int, rf[e.1 as int] - 1),
                rt.update(e.2 as int, rt[e.2 as int] - 1),
            )
        } else {
            spec_greedy(q2, rf, rt)
        }
    }
}

/// The combined score of a candidate queue: the greedy accumulation over
/// the sorted queue, divided by the geometric mean of the two squared
/// norms and clamped into `[0, SCALE]`; 0 when either side is degenerate.
pub open spec fn spec_combination_score(
    q: Seq<Candidate>,
    fc: Seq<u64>,
    tc: Seq<u64>,
    from_norm_sq: int,
    to_norm_sq: int,
) -> int {
    if from_norm_sq <= 0 || to_norm_sq <= 0 {
        0
    } else {
        let acc = spec_greedy(
            spec_sort_by_score(q),
            fc.map_values(|c: u64| c as int),
            tc.map_values(|c: u64| c as int),
        );
        spec_clamp_score((acc * SCALE) / spec_isqrt(from_norm_sq * to_norm_sq))
    }
}

proof fn lemma_insert_by_score_position(s: Seq<Candidate>, e: Candidate, j: int)
    requires
        0 <= j <= s.len(),
        forall|p: int| j <= p < s.len() ==> (#[trigger] s[p]).0 > e.0,
        j > 0 ==> s[j - 1].0 <= e.0,
    ensures
        spec_insert_by_score(s, e) == s.take(j).push(e) + s.skip(j),
    decreases s.len(),
{
    if j == s.len() {
        if s.len() == 0 {
            assert(spec_insert_by_score(s, e) =~= s.take(j).push(e) + s.skip(j));
        } else {
            assert(s.last().0 <= e.0);
            assert(s.take(j) =~= s);
            assert(spec_insert_by_score(s, e) =~= s.take(j).push(e) + s.skip(j));
        }
    } else {
        assert(s[s.len() - 1].0 > e.0);
        let dl = s.drop_last();
        assert(forall|p: int| j <= p < dl.len() ==> (#[trigger] dl[p]).0 > e.0);
        if j > 0 {
            assert(dl[j - 1] == s[j - 1]);
        }
        lemma_insert_by_score_position(dl, e, j);
        assert(spec_insert_by_score(s, e) == spec_insert_by_score(dl, e).push(s.last()));
        assert(dl.take(j) =~= s.take(j));
        assert((dl.take(j).push(e) + dl.skip(j)).push(s.last()) =~= s.take(j).push(e) + s.skip(
            j,
        ));
    }
}

proof fn lemma_insert_by_score_ok(s: Seq<Candidate>, e: Candidate, flen: int, tlen: int)
    requires
        queue_ok(s, flen, tlen),
        e.0 <= W2_BOUND,
        e.1 < flen,
        e.2 < tlen,
    ensures
        queue_ok(spec_insert_by_score(s, e), flen, tlen),
        spec_insert_by_score(s, e).len() == s.len() + 1,
    decreases s.len(),
{
    if s.len() == 0 {
    } else if s.last().0 <= e.0 {
    } else {
        assert(queue_ok(s.drop_last(), flen, tlen));
        lemma_insert_by_score_ok(s.drop_last(), e, flen, tlen);
        let r = spec_insert_by_score(s.drop_last(), e).push(s.last());
        assert forall|k: int|
            0 <= k < r.len() implies (#[trigger] r[k]).0 <= W2_BOUND && r[k].1 < flen && r[k].2
            < tlen by {
            if k < r.len() - 1 {
                assert(r[k] == spec_insert_by_score(s.drop_last(), e)[k]);
            } else {
                assert(r[k] == s.last());
            }
        }
    }
}

proof fn lemma_sort_by_score_ok(s: Seq<Candidate>, flen: int, tlen: int)
    requires
        queue_ok(s, flen, tlen),
    ensures
        queue_ok(spec_sort_by_score(s), flen, tlen),
        spec_sort_by_score(s).len() == s.len(),
    decreases s.len(),
{
    if s.len() > 0 {
        assert(queue_ok(s.drop_last(), flen, tlen));
        lemma_sort_by_score_ok(s.drop_last(), flen, tlen);
        lemma_insert_by_score_ok(
            spec_sort_by_score(s.drop_last()),
            s.last(),
            flen,
            tlen,
        );
    }
}

proof fn lemma_seq_int_sum_update(s: Seq<int>, i: int, v: int)
    requires
        0 <= i < s.len(),
    ensures
        seq_int_sum(s.update(i, v)) == seq_int_sum(s) - s[i] + v,
    decreases s.len(),
{
    let u = s.update(i, v);
    if i == s.len() - 1 {
        assert(u.last() == v);
        assert(u.drop_last() =~= s.drop_last());
    } else {
        assert(u.last() == s.last());
        assert(u.drop_last() =~= s.drop_last().update(i, v));
        lemma_seq_int_sum_update(s.drop_last(), i, v);
    }
}

proof fn lemma_seq_int_sum_nonneg(s: Seq<int>)
    requires
        forall|i: int| 0 <= i < s.len() ==> s[i] >= 0,
    ensures
        seq_int_sum(s) >= 0,
    decreases s.len(),
{
    if s.len() > 0 {
        assert(forall|i: int| 0 <= i < s.drop_last().len() ==> s.drop_last()[i] == s[i]);
        lemma_seq_int_sum_nonneg(s.drop_last());
    }
}

/// The greedy accumulation is non-negative and bounded by the remaining
/// from-multiplicity times the largest candidate score.
proof fn lemma_greedy_bound(q: Seq<Candidate>, rf: Seq<int>, rt: Seq<int>)
    requires
        forall|k: int| 0 <= k < q.len() ==> (#[trigger] q[k]).0 <= W2_BOUND,
        forall|i: int| 0 <= i < rf.len() ==> rf[i] >= 0,
        forall|i: int| 0 <= i < rt.len() ==> rt[i] >= 0,
    ensures
        0 <= spec_greedy(q, rf, rt) <= seq_int_sum(rf) * W2_BOUND,
    decreases q.len(),
{
    lemma_seq_int_sum_nonneg(rf);
    if q.len() == 0 {
        assert(seq_int_sum(rf) * W2_BOUND >= 0) by (nonlinear_arith)
            requires seq_int_sum(rf) >= 0 && W2_BOUND > 0;
    } else {
        let e = q.last();
        let q2 = q.drop_last();
        assert(forall|k: int| 0 <= k < q2.len() ==> (#[trigger] q2[k]).0 <= W2_BOUND) by {
            assert(forall|k: int| 0 <= k < q2.len() ==> q2[k] == q[k]);
        }
        if e.1 < rf.len() && e.2 < rt.len() && rf[e.1 as int] >= 1 && rt[e.2 as int] >= 1 {
            let rf2 = rf.update(e.1 as int, rf[e.1 as int] - 1);
            let rt2 = rt.update(e.2 as int, rt[e.2 as int] - 1);
            assert(forall|i: int| 0 <= i < rf2.len() ==> rf2[i] >= 0);
            assert(forall|i: int| 0 <= i < rt2.len() ==> rt2[i] >= 0);
            lemma_greedy_bound(q2, rf2, rt2);
            lemma_seq_int_sum_update(rf, e.1 as int, rf[e.1 as int] - 1);
            assert(seq_int_sum(rf2) == seq_int_sum(rf) - 1);
            assert(e.0 + seq_int_sum(rf2) * W2_BOUND <= seq_int_sum(rf) * W2_BOUND)
                by (nonlinear_arith)
                requires e.0 <= W2_BOUND && seq_int_sum(rf2) == seq_int_sum(rf) - 1;
        } else {
            lemma_greedy_bound(q2, rf, rt);
        }
    }
}

/// The greedy accumulation does not favor a side: transposing every
/// candidate (swapping its from- and to-token) and exchanging the two
/// multiplicity vectors leaves the accumulated score unchanged.  This is
/// the symmetry the fuzzy modes inherit from their cross-product candidate
/// queues.
pub proof fn lemma_greedy_transpose(
    q1: Seq<Candidate>,
    q2: Seq<Candidate>,
    rf: Seq<int>,
    rt: Seq<int>,
)
    requires
        q1.len() == q2.len(),
        forall|k: int|
            0 <= k < q1.len() ==> #[trigger] q2[k] == ((#[trigger] q1[k]).0, q1[k].2, q1[k].1),
    ensures
        spec_greedy(q1, rf, rt) == spec_greedy(q2, rt, rf),
    decreases q1.len(),
{
    if q1.len() > 0 {
        let e1 = q1.last();
        let e2 = q2.last();
        assert(e2 == (e1.0, e1.2, e1.1));
        assert(q1.drop_last().len() == q2.drop_last().len());
        assert(forall|k: int|
            0 <= k < q1.drop_last().len() ==> q1.drop_last()[k] == q1[k] && q2.drop_last()[k]
                == q2[k]);
        if e1.1 < rf.len() && e1.2 < rt.len() && rf[e1.1 as int] >= 1 && rt[e1.2 as int] >= 1 {
            lemma_greedy_transpose(
                q1.drop_last(),
                q2.drop_last(),
                rf.update(e1.1 as int, rf[e1.1 as int] - 1),
                rt.update(e1.2 as int, rt[e1.2 as int] - 1),
            );
        } else {
            lemma_greedy_transpose(q1.drop_last(), q2.drop_last(), rf, rt);
        }
    }
}

/// Sort the candidate queue by ascending score, stably.
fn sort_candidates(q: Vec<Candidate>) -> (r: Vec<Candidate>)
    ensures
        r@ == spec_sort_by_score(q@),
{
    let n = q.len();
    let mut r: Vec<Candidate> = Vec::new();
    let mut i: usize = 0;
    proof {
        assert(q@.take(0) =~= Seq::<Candidate>::empty());
    }
    while i < n
        invariant
            n == q@.len(),
            i <= n,
            r@ == spec_sort_by_score(q@.take(i as int)),
            r@.len() == i,
        decreases n - i,
    {
        let e = q[i];
        let mut j: usize = r.len();
        while j > 0 && r[j - 1].0 > e.0
            invariant
                j <= r@.len(),
                forall|p: int| j <= p < r@.len() ==> (#[trigger] r@[p]).0 > e.0,
            decreases j,
        {
            j = j - 1;
        }
        let ghost old_r = r@;
        r.insert(j, e);
        proof {
            lemma_insert_by_score_position(old_r, e, j as int);
            assert(r@ =~= old_r.take(j as int).push(e) + old_r.skip(j as int));
            assert(q@.take(i as int + 1).drop_last() =~= q@.take(i as int));
            assert(q@.take(i as int + 1).last() == q@[i as int]);
            assert(r@ == spec_sort_by_score(q@.take(i as int + 1)));
        }
        i = i + 1;
    }
    proof {
        assert(q@.take(n as int) =~= q@);
    }
    r
}

/// Combine the token-pair candidate scores into one record-pair score: sort
/// ascending, take greedily from the top under the records' original token
/// multiplicities, then normalize by the geometric mean of the squared
/// norms.
pub fn score_combination_queue(
    combination_queue: Vec<Candidate>,
    from_counts: &Vec<u64>,
    to_counts: &Vec<u64>,
    from_norm_sq: u64,
    to_norm_sq: u64,
) -> (score: u64)
    requires
        queue_ok(combination_queue@, from_counts@.len() as int, to_counts@.len() as int),
        seq_u64_sum(from_counts@) <= TOKEN_CAP,
    ensures
        score as int == spec_combination_score(
            combination_queue@,
            from_counts@,
            to_counts@,
            from_norm_sq as int,
            to_norm_sq as int,
        ),
        score <= SCALE,
{
    if from_norm_sq == 0 || to_norm_sq == 0 {
        return 0;
    }
    let ghost q0 = combination_queue@;
    let sorted = sort_candidates(combination_queue);
    let ghost rf0 = from_counts@.map_values(|c: u64| c as int);
    let ghost rt0 = to_counts@.map_values(|c: u64| c as int);
    proof {
        lemma_sort_by_score_ok(q0, from_counts@.len() as int, to_counts@.len() as int);
        lemma_map_sum_eq(from_counts@);
        lemma_greedy_bound(sorted@, rf0, rt0);
        assert(seq_int_sum(rf0) * W2_BOUND <= TOKEN_CAP * W2_BOUND) by (nonlinear_arith)
            requires 0 <= seq_int_sum(rf0) <= TOKEN_CAP && W2_BOUND > 0;
    }
    let ghost total = spec_greedy(sorted@, rf0, rt0);

    let mut rf: Vec<u64> = Vec::new();
    let mut k: usize = 0;
    let fl = from_counts.len();
    while k < fl
        invariant
            k <= fl,
            fl == from_counts@.len(),
            rf@ =~= from_counts@.take(k as int),
        decreases fl - k,
    {
        rf.push(from_counts[k]);
        k = k + 1;
    }
    proof {
        assert(rf@ =~= from_counts@);
    }
    let mut rt: Vec<u64> = Vec::new();
    let mut k2: usize = 0;
    let tl = to_counts.len();
    while k2 < tl
        invariant
            k2 <= tl,
            tl == to_counts@.len(),
            rt@ =~= to_counts@.take(k2 as int),
        decreases tl - k2,
    {
        rt.push(to_counts[k2]);
        k2 = k2 + 1;
    }
    proof {
        assert(rt@ =~= to_counts@);
    }

    let mut acc: u64 = 0;
    let mut idx: usize = sorted.len();
    proof {
        assert(sorted@.take(idx as int) =~= sorted@);
    }
    while idx > 0
        invariant
            idx <= sorted@.len(),
            queue_ok(sorted@, rf@.len() as int, rt@.len() as int),
            rf@.len() == from_counts@.len(),
            rt@.len() == to_counts@.len(),
            total == spec_greedy(sorted@, rf0, rt0),
            0 <= total <= NORM_SQ_BOUND,
            acc + spec_greedy(
                sorted@.take(idx as int),
                rf@.map_values(|c: u64| c as int),
                rt@.map_values(|c: u64| c as int),
            ) == total,
            acc <= total,
        decreases idx,
    {
        let ghost rfm = rf@.map_values(|c: u64| c as int);
        let ghost rtm = rt@.map_values(|c: u64| c as int);
        idx = idx - 1;
        let e = sorted[idx];
        proof {
            assert(sorted@.take(idx as int + 1).last() == e);
            assert(sorted@.take(idx as int + 1).drop_last() =~= sorted@.take(idx as int));
        }
        if rf[e.1] >= 1 && rt[e.2] >= 1 {
            let ghost rfm2 = rfm.update(e.1 as int, rfm[e.1 as int] - 1);
            let ghost rtm2 = rtm.update(e.2 as int, rtm[e.2 as int] - 1);
            proof {
                assert(spec_greedy(sorted@.take(idx as int + 1), rfm, rtm) == e.0 + spec_greedy(
                    sorted@.take(idx as int),
                    rfm2,
                    rtm2,
                ));
                assert forall|i: int| 0 <= i < rfm2.len() implies rfm2[i] >= 0 by {}
                assert forall|i: int| 0 <= i < rtm2.len() implies rtm2[i] >= 0 by {}
                assert(forall|kk: int|
                    0 <= kk < sorted@.take(idx as int).len() ==> (#[trigger] sorted@.take(
                        idx as int,
                    )[kk]).0 <= W2_BOUND);
                lemma_greedy_bound(sorted@.take(idx as int), rfm2, rtm2);
            }
            acc = acc + e.0;
            let c1 = rf[e.1];
            rf[e.1] = c1 - 1;
            let c2 = rt[e.2];
            rt[e.2] = c2 - 1;
            proof {
                assert(rf@.map_values(|c: u64| c as int) =~= rfm2);
                assert(rt@.map_values(|c: u64| c as int) =~= rtm2);
            }
        } else {
            proof {
                assert(spec_greedy(sorted@.take(idx as int + 1), rfm, rtm) == spec_greedy(
                    sorted@.take(idx as int),
                    rfm,
                    rtm,
                ));
            }
        }
    }
    proof {
        assert(sorted@.take(0) =~= Seq::<Candidate>::empty());
        assert(acc == total);
        lemma_u64_mul_fits(from_norm_sq, to_norm_sq);
    }
    let den_in: u128 = (from_norm_sq as u128) * (to_norm_sq as u128);
    let den: u128 = isqrt_u128(den_in);
    proof {
        lemma_isqrt_exists(den_in as int);
        assert(den_in >= 1) by (nonlinear_arith)
            requires from_norm_sq >= 1 && to_norm_sq >= 1
                && den_in == (from_norm_sq as int) * (to_norm_sq as int);
        assert(is_isqrt(den_in as int, den as int));
        if den == 0 {
            assert(den_in < ((den as int) + 1) * ((den as int) + 1));
            assert(false) by (nonlinear_arith)
                requires den_in >= 1 && den as int == 0 && den_in < ((den as int) + 1) * ((
                den as int) + 1);
        }
        assert((acc as u128) * SCALE_U128 <= u128::MAX) by (nonlinear_arith)
            requires acc <= NORM_SQ_BOUND && SCALE_U128 == 1_000_000_000u128
                && NORM_SQ_BOUND == 2_097_152_000_000_000_000u64;
    }
    let v: u128 = ((acc as u128) * SCALE_U128) / den;
    if v > (SCALE as u128) {
        SCALE
    } else {
        v as u64
    }
}

/// The pairwise score a token-pair similarity contributes: the similarity
/// scaled by the product of both tokens' weights, `sim * (wf * wt)` in
/// fixed point.  The weights are multiplied together first, so the
/// candidate is exactly symmetric under swapping the two sides.
pub open spec fn spec_candidate(sim: int, wf: int, wt: int) -> int {
    (sim * ((wf * wt) / (SCALE as int))) / (SCALE as int)
}

/// The candidate score is symmetric in the two weights.
pub proof fn lemma_candidate_symmetric(sim: int, wf: int, wt: int)
    ensures
        spec_candidate(sim, wf, wt) == spec_candidate(sim, wt, wf),
{
    assert(wf * wt == wt * wf) by (nonlinear_arith);
}

/// A fully similar token pair contributes exactly the fixed-point product
/// of its two weights; in particular each diagonal candidate of a
/// self-match contributes the token's squared weight.
pub proof fn lemma_candidate_full_sim(wf: int, wt: int)
    requires
        wf >= 0,
        wt >= 0,
    ensures
        spec_candidate(SCALE as int, wf, wt) == (wf * wt) / (SCALE as int),
{
    let p = (wf * wt) / (SCALE as int);
    vstd::arithmetic::div_mod::lemma_div_multiples_vanish(p, SCALE as int);
    assert(((SCALE as int) * p) / (SCALE as int) == p);
}

/// Scale a (unit-bounded) similarity by the two tokens' weights.
pub fn candidate_score(sim: u64, wf: u64, wt: u64) -> (c: u64)
    requires
        sim <= SCALE,
        wf <= crate::fixed::LN_BOUND,
        wt <= crate::fixed::LN_BOUND,
    ensures
        c as int == spec_candidate(sim as int, wf as int, wt as int),
        c <= W2_BOUND,
{
    proof {
        lemma_u64_mul_fits(wf, wt);
    }
    let wprod: u128 = ((wf as u128) * (wt as u128)) / SCALE_U128;
    proof {
        assert(wprod <= W2_BOUND) by (nonlinear_arith)
            requires wf <= 44_361_419_520u64 && wt <= 44_361_419_520u64
                && SCALE_U128 == 1_000_000_000u128 && W2_BOUND == 2_000_000_000_000u64
                && wprod == ((wf as int) * (wt as int)) / (SCALE_U128 as int);
        lemma_u64_mul_fits(sim, wprod as u64);
    }
    let c2: u128 = ((sim as u128) * wprod) / SCALE_U128;
    proof {
        assert(c2 <= wprod) by (nonlinear_arith)
            requires sim <= SCALE && SCALE == 1_000_000_000u64 && SCALE_U128 == 1_000_000_000u128
                && c2 == ((sim as int) * (wprod as int)) / (SCALE_U128 as int) && wprod >= 0;
    }
    c2 as u64
}

/// A count vector that mirrors an association sequence's counts sums to the
/// same total.
pub proof fn lemma_counts_sum(cv: Seq<u64>, s: Seq<(Seq<char>, u64)>)
    requires
        cv.len() == s.len(),
        forall|i: int| 0 <= i < cv.len() ==> cv[i] == (#[trigger] s[i]).1,
    ensures
        seq_u64_sum(cv) == crate::tokens::seq_total(s),
    decreases s.len(),
{
    if s.len() > 0 {
        assert(cv.drop_last().len() == s.drop_last().len());
        assert(forall|i: int|
            0 <= i < cv.drop_last().len() ==> cv.drop_last()[i] == (#[trigger] s.drop_last()[i]).1);
        lemma_counts_sum(cv.drop_last(), s.drop_last());
    }
}

/// The integer sum of a count sequence equals the sum of its `int` image.
proof fn lemma_map_sum_eq(s: Seq<u64>)
    ensures
        seq_int_sum(s.map_values(|c: u64| c as int)) == seq_u64_sum(s),
    decreases s.len(),
{
    if s.len() > 0 {
        lemma_map_sum_eq(s.drop_last());
        assert(s.map_values(|c: u64| c as int).drop_last() =~= s.drop_last().map_values(
            |c: u64| c as int,
        ));
    }
}

} // verus!
