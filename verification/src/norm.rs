//! Shared weighting machinery for all profile kinds: each profile pairs the
//! distinct tokens of a record (with multiplicities) with their IDF weights
//! and carries the squared norm `sum count * w^2 / SCALE`.

use crate::fixed::{lemma_w2_bound, spec_w2, LN_BOUND, W2_BOUND};
use crate::idf::Idf;
use crate::names::TOKEN_CAP;
use crate::tokens::{seq_total, TokenCounter};
use vstd::prelude::*;

verus! {

/// Upper bound on any profile's squared norm: `TOKEN_CAP * W2_BOUND`.
pub const NORM_SQ_BOUND: u64 = TOKEN_CAP * W2_BOUND;

/// `sum over the first k entries of count * w^2 / SCALE`.
pub open spec fn spec_norm_sq_prefix(pairs: Seq<(Seq<char>, u64)>, ws: Seq<u64>, k: int) -> int
    decreases k,
{
    if k <= 0 {
        0
    } else {
        spec_norm_sq_prefix(pairs, ws, k - 1) + pairs[k - 1].1 * spec_w2(ws[k - 1] as int)
    }
}

/// `sum over the first k entries of min(count, cnt(token)) * w^2 / SCALE`:
/// the weighted overlap of a profile with any other token count function.
pub open spec fn spec_num_prefix(
    pairs: Seq<(Seq<char>, u64)>,
    ws: Seq<u64>,
    cnt: spec_fn(Seq<char>) -> int,
    k: int,
) -> int
    decreases k,
{
    if k <= 0 {
        0
    } else {
        let c = pairs[k - 1].1 as int;
        let o = cnt(pairs[k - 1].0);
        let m = if c <= o {
            c
        } else {
            o
        };
        spec_num_prefix(pairs, ws, cnt, k - 1) + m * spec_w2(ws[k - 1] as int)
    }
}

pub proof fn lemma_norm_sq_prefix_bound(pairs: Seq<(Seq<char>, u64)>, ws: Seq<u64>, k: int)
    requires
        0 <= k <= pairs.len(),
        k <= ws.len(),
        forall|i: int| 0 <= i < k ==> #[trigger] ws[i] <= LN_BOUND,
    ensures
        0 <= spec_norm_sq_prefix(pairs, ws, k) <= seq_total(pairs.take(k)) * W2_BOUND,
    decreases k,
{
    if k > 0 {
        lemma_norm_sq_prefix_bound(pairs, ws, k - 1);
        lemma_w2_bound(ws[k - 1] as int);
        assert(pairs.take(k).drop_last() =~= pairs.take(k - 1));
        assert(pairs.take(k).last() == pairs[k - 1]);
        let t = seq_total(pairs.take(k - 1));
        let c = pairs[k - 1].1 as int;
        let w2 = spec_w2(ws[k - 1] as int);
        assert(seq_total(pairs.take(k)) == t + c);
        assert(c * w2 <= c * W2_BOUND && c * w2 >= 0) by (nonlinear_arith)
            requires 0 <= w2 <= W2_BOUND && c >= 0;
        assert(t * W2_BOUND + c * W2_BOUND == (t + c) * W2_BOUND) by (nonlinear_arith);
    } else {
        assert(pairs.take(0) =~= Seq::<(Seq<char>, u64)>::empty());
        vstd::arithmetic::mul::lemma_mul_basics(W2_BOUND as int);
    }
}

/// Each partial overlap is bounded by the partial squared norm whenever the
/// other side's counts are non-negative.
pub proof fn lemma_num_prefix_le_norm_sq(
    pairs: Seq<(Seq<char>, u64)>,
    ws: Seq<u64>,
    cnt: spec_fn(Seq<char>) -> int,
    k: int,
)
    requires
        0 <= k <= pairs.len(),
        k <= ws.len(),
        forall|t: Seq<char>| #[trigger] cnt(t) >= 0,
        forall|i: int| 0 <= i < k ==> #[trigger] ws[i] <= LN_BOUND,
    ensures
        0 <= spec_num_prefix(pairs, ws, cnt, k) <= spec_norm_sq_prefix(pairs, ws, k),
    decreases k,
{
    if k > 0 {
        lemma_num_prefix_le_norm_sq(pairs, ws, cnt, k - 1);
        lemma_w2_bound(ws[k - 1] as int);
        let c = pairs[k - 1].1 as int;
        let o = cnt(pairs[k - 1].0);
        let m = if c <= o {
            c
        } else {
            o
        };
        let w2 = spec_w2(ws[k - 1] as int);
        assert(0 <= m * w2 <= c * w2) by (nonlinear_arith)
            requires 0 <= m <= c && w2 >= 0;
    }
}

pub proof fn lemma_norm_sq_prefix_monotone(pairs: Seq<(Seq<char>, u64)>, ws: Seq<u64>, j: int, k: int)
    requires
        0 <= j <= k <= pairs.len(),
        k <= ws.len(),
        forall|i: int| 0 <= i < k ==> #[trigger] ws[i] <= LN_BOUND,
    ensures
        spec_norm_sq_prefix(pairs, ws, j) <= spec_norm_sq_prefix(pairs, ws, k),
    decreases k - j,
{
    if j < k {
        lemma_norm_sq_prefix_monotone(pairs, ws, j, k - 1);
        lemma_w2_bound(ws[k - 1] as int);
        let c = pairs[k - 1].1 as int;
        let w2 = spec_w2(ws[k - 1] as int);
        assert(c * w2 >= 0) by (nonlinear_arith)
            requires c >= 0 && w2 >= 0;
    }
}

/// Look up the IDF weight of each token of a counter and accumulate the
/// squared norm.  Shared by all profile constructors.
pub fn build_weights(counter: &TokenCounter, idf: &Idf) -> (r: (Vec<u64>, u64))
    requires
        counter.wf(),
        counter.total() <= TOKEN_CAP,
        idf.wf(),
    ensures
        r.0@.len() == counter.view_entries().len(),
        forall|i: int|
            0 <= i < r.0@.len() ==> #[trigger] r.0@[i] as int == idf.spec_lookup(
                counter.view_entries()[i].0,
            ) && r.0@[i] <= LN_BOUND,
        r.1 as int == spec_norm_sq_prefix(
            counter.view_entries(),
            r.0@,
            counter.view_entries().len() as int,
        ),
        r.1 <= NORM_SQ_BOUND,
{
    let n = counter.num_tokens();
    let mut ws: Vec<u64> = Vec::new();
    let mut nsq: u64 = 0;
    let mut i: usize = 0;
    while i < n
        invariant
            counter.wf(),
            counter.total() <= TOKEN_CAP,
            idf.wf(),
            n == counter.view_entries().len(),
            i <= n,
            ws@.len() == i,
            forall|p: int|
                0 <= p < i ==> #[trigger] ws@[p] as int == idf.spec_lookup(
                    counter.view_entries()[p].0,
                ) && ws@[p] <= LN_BOUND,
            nsq as int == spec_norm_sq_prefix(counter.view_entries(), ws@, i as int),
            nsq <= NORM_SQ_BOUND,
        decreases n - i,
    {
        let ghost pairs = counter.view_entries();
        let ghost old_ws = ws@;
        let w = idf.lookup(counter.token_at(i));
        let c = counter.count_at(i);
        proof {
            lemma_w2_bound(w as int);
            assert((w as int) * (w as int) <= (LN_BOUND as int) * (LN_BOUND as int))
                by (nonlinear_arith)
                requires w <= LN_BOUND;
        }
        let w2_128: u128 = ((w as u128) * (w as u128)) / SCALE_U128;
        let w2: u64 = w2_128 as u64;
        assert(w2 as int == spec_w2(w as int));
        proof {
            crate::fixed::lemma_u64_mul_fits(c, w2);
        }
        let term: u128 = (c as u128) * (w2 as u128);
        ws.push(w);
        proof {
            lemma_norm_sq_prefix_same(pairs, old_ws, ws@, i as int);
            assert(spec_norm_sq_prefix(pairs, ws@, i as int + 1) == nsq + (c as int) * spec_w2(
                w as int,
            ));
            lemma_norm_sq_prefix_bound(pairs, ws@, i as int + 1);
            crate::tokens::lemma_seq_total_take_le(pairs, i as int + 1);
            assert(seq_total(pairs.take(i as int + 1)) * W2_BOUND <= TOKEN_CAP * W2_BOUND)
                by (nonlinear_arith)
                requires 0 <= seq_total(pairs.take(i as int + 1)) <= TOKEN_CAP && W2_BOUND > 0;
            assert(term == (c as int) * (w2 as int));
        }
        nsq = ((nsq as u128) + term) as u64;
        i = i + 1;
    }
    (ws, nsq)
}

/// `SCALE` as `u128`, for intermediate products.
pub const SCALE_U128: u128 = 1_000_000_000;

/// Prefix sums only read the first `k` weights.
pub proof fn lemma_norm_sq_prefix_same(
    pairs: Seq<(Seq<char>, u64)>,
    ws1: Seq<u64>,
    ws2: Seq<u64>,
    k: int,
)
    requires
        0 <= k,
        forall|i: int| 0 <= i < k ==> ws1[i] == ws2[i],
    ensures
        spec_norm_sq_prefix(pairs, ws1, k) == spec_norm_sq_prefix(pairs, ws2, k),
    decreases k,
{
    if k > 0 {
        lemma_norm_sq_prefix_same(pairs, ws1, ws2, k - 1);
    }
}

} // verus!
