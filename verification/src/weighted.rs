//! The Token match profile: exact token overlap weighted by IDF, a
//! cosine-like similarity over token multisets.

use crate::fixed::{
    is_isqrt, isqrt_u128, lemma_isqrt_exists, lemma_isqrt_unique, lemma_u64_mul_fits,
    lemma_w2_bound, spec_clamp_score, spec_isqrt, spec_w2, LN_BOUND, SCALE,
};
use crate::idf::Idf;
use crate::names::{NameContainer, NameProcessed, UnprocessedName, TOKEN_CAP};
use crate::norm::{
    build_weights, lemma_norm_sq_prefix_monotone, lemma_num_prefix_le_norm_sq,
    spec_norm_sq_prefix, spec_num_prefix, NORM_SQ_BOUND, SCALE_U128,
};
use crate::tokens::{
    lemma_seq_count_absent, lemma_seq_count_at, lemma_seq_count_nonneg, lemma_seq_count_pos,
    seq_count, TokenCounter,
};
use vstd::prelude::*;

verus! {

/// The token counts of a counter, as a function.
pub open spec fn counter_fn(c: TokenCounter) -> spec_fn(Seq<char>) -> int {
    |t: Seq<char>| c.spec_count(t)
}

/// The token counts of the first `k` entries of an association sequence,
/// as a function.
pub open spec fn prefix_fn(pairs: Seq<(Seq<char>, u64)>, k: int) -> spec_fn(Seq<char>) -> int {
    |t: Seq<char>| seq_count(pairs.take(k), t)
}

/// A record weighted for exact token matching.
pub struct NameWeighted<N> {
    name: N,
    token_counter: TokenCounter,
    weights: Vec<u64>,
    norm_sq: u64,
}

impl<N> NameContainer<N> for NameWeighted<N> where N: UnprocessedName {
    fn get_name(&self) -> &N {
        &self.name
    }
}

impl<N> NameWeighted<N> {
    pub closed spec fn spec_name(&self) -> N {
        self.name
    }

    pub closed spec fn spec_counter(&self) -> TokenCounter {
        self.token_counter
    }

    pub closed spec fn spec_weights(&self) -> Seq<u64> {
        self.weights@
    }

    pub closed spec fn spec_norm_sq(&self) -> int {
        self.norm_sq as int
    }

    /// The profile's (token, count) association sequence.
    pub open spec fn spec_pairs(&self) -> Seq<(Seq<char>, u64)> {
        self.spec_counter().view_entries()
    }

    pub open spec fn wf(&self) -> bool {
        &&& self.spec_counter().wf()
        &&& self.spec_counter().total() <= TOKEN_CAP
        &&& self.spec_weights().len() == self.spec_pairs().len()
        &&& forall|i: int|
            0 <= i < self.spec_weights().len() ==> #[trigger] self.spec_weights()[i] <= LN_BOUND
        &&& self.spec_norm_sq() == spec_norm_sq_prefix(
            self.spec_pairs(),
            self.spec_weights(),
            self.spec_pairs().len() as int,
        )
        &&& self.spec_norm_sq() <= NORM_SQ_BOUND
    }

    /// Weight each token of the processed record by the IDF model.
    pub fn new(np: NameProcessed<N>, idf: &Idf) -> (r: NameWeighted<N>)
        requires
            np.wf(),
            idf.wf(),
        ensures
            r.wf(),
            r.spec_name() == np.name,
            r.spec_counter() == np.token_counter,
            forall|i: int|
                0 <= i < r.spec_weights().len() ==> #[trigger] r.spec_weights()[i] as int
                    == idf.spec_lookup(r.spec_pairs()[i].0),
    {
        let NameProcessed { name, token_counter } = np;
        let (weights, norm_sq) = build_weights(&token_counter, idf);
        NameWeighted { name, token_counter, weights, norm_sq }
    }

    pub fn name(&self) -> (r: &N)
        ensures
            r == &self.spec_name(),
    {
        &self.name
    }

    pub fn norm_sq(&self) -> (r: u64)
        ensures
            r as int == self.spec_norm_sq(),
    {
        self.norm_sq
    }

    /// The IDF-weighted multiset overlap with `to_name`, in fixed point:
    /// `sum min(count_from, count_to) * w^2` over shared tokens, divided by
    /// the geometric mean of the two squared norms.  A degenerate profile
    /// (zero norm) never matches and scores 0.
    pub fn compute_match_score(&self, to_name: &Self) -> (score: u64)
        requires
            self.wf(),
            to_name.wf(),
        ensures
            score as int == spec_token_score(self, to_name),
            score <= SCALE,
    {
        if self.norm_sq == 0 || to_name.norm_sq == 0 {
            return 0;
        }
        let ghost pairs = self.spec_pairs();
        let ghost ws = self.spec_weights();
        let ghost cntb = counter_fn(to_name.spec_counter());
        proof {
            assert forall|t: Seq<char>| #[trigger] cntb(t) >= 0 by {
                lemma_seq_count_nonneg(to_name.spec_pairs(), t);
            }
        }
        let n = self.token_counter.num_tokens();
        let mut acc: u128 = 0;
        let mut i: usize = 0;
        while i < n
            invariant
                self.wf(),
                to_name.wf(),
                pairs == self.spec_pairs(),
                ws == self.spec_weights(),
                cntb == counter_fn(to_name.spec_counter()),
                forall|t: Seq<char>| #[trigger] cntb(t) >= 0,
                n == pairs.len(),
                i <= n,
                self.spec_norm_sq() >= 1,
                to_name.spec_norm_sq() >= 1,
                acc == spec_num_prefix(pairs, ws, cntb, i as int),
                acc <= NORM_SQ_BOUND,
            decreases n - i,
        {
            let cb = to_name.token_counter.get(self.token_counter.token_at(i));
            let ca = self.token_counter.count_at(i);
            let w = self.weights[i];
            let m = if ca <= cb {
                ca
            } else {
                cb
            };
            proof {
                lemma_w2_bound(w as int);
                assert((w as int) * (w as int) <= (LN_BOUND as int) * (LN_BOUND as int))
                    by (nonlinear_arith)
                    requires w <= LN_BOUND;
            }
            let w2: u64 = (((w as u128) * (w as u128)) / SCALE_U128) as u64;
            proof {
                assert(w2 as int == spec_w2(w as int));
                lemma_u64_mul_fits(m, w2);
                assert(spec_num_prefix(pairs, ws, cntb, i as int + 1) == acc + (m as int) * (
                w2 as int));
                lemma_num_prefix_le_norm_sq(pairs, ws, cntb, i as int + 1);
                lemma_norm_sq_prefix_monotone(pairs, ws, i as int + 1, n as int);
            }
            acc = acc + (m as u128) * (w2 as u128);
            i = i + 1;
        }
        proof {
            lemma_u64_mul_fits(self.norm_sq, to_name.norm_sq);
        }
        let den_in: u128 = (self.norm_sq as u128) * (to_name.norm_sq as u128);
        let den: u128 = isqrt_u128(den_in);
        proof {
            lemma_isqrt_exists(den_in as int);
            assert(den_in >= 1) by (nonlinear_arith)
                requires self.norm_sq >= 1 && to_name.norm_sq >= 1
                    && den_in == (self.norm_sq as int) * (to_name.norm_sq as int);
            assert(is_isqrt(den_in as int, den as int));
            if den == 0 {
                assert(den_in < ((den as int) + 1) * ((den as int) + 1));
                assert(false) by (nonlinear_arith)
                    requires den_in >= 1 && den as int == 0 && den_in < ((den as int) + 1) * ((
                    den as int) + 1);
            }
            assert(acc * SCALE_U128 <= u128::MAX) by (nonlinear_arith)
                requires acc <= NORM_SQ_BOUND && SCALE_U128 == 1_000_000_000u128
                    && NORM_SQ_BOUND == 2_097_152_000_000_000_000u64;
        }
        let v: u128 = (acc * SCALE_U128) / den;
        if v > (SCALE as u128) {
            SCALE
        } else {
            v as u64
        }
    }
}

/// The weighted overlap of `a` against `b`'s token counts.
pub open spec fn spec_num<N>(a: &NameWeighted<N>, b: &NameWeighted<N>) -> int {
    spec_num_prefix(
        a.spec_pairs(),
        a.spec_weights(),
        counter_fn(b.spec_counter()),
        a.spec_pairs().len() as int,
    )
}

/// The Token-mode score: weighted overlap over the geometric mean of the
/// squared norms, clamped into `[0, SCALE]`; 0 for degenerate profiles.
pub open spec fn spec_token_score<N>(a: &NameWeighted<N>, b: &NameWeighted<N>) -> int {
    if a.spec_norm_sq() <= 0 || b.spec_norm_sq() <= 0 {
        0
    } else {
        spec_clamp_score(
            (spec_num(a, b) * SCALE) / spec_isqrt(a.spec_norm_sq() * b.spec_norm_sq()),
        )
    }
}

/// Both profiles give every shared token the same weight (as profiles built
/// from one weight model do).
pub open spec fn compatible<N>(a: &NameWeighted<N>, b: &NameWeighted<N>) -> bool {
    forall|i: int, j: int|
        #![trigger a.spec_weights()[i], b.spec_weights()[j]]
        0 <= i < a.spec_pairs().len() && 0 <= j < b.spec_pairs().len() && a.spec_pairs()[i].0
            == b.spec_pairs()[j].0 ==> a.spec_weights()[i] == b.spec_weights()[j]
}

/// Profiles built from the same weight model are compatible.
pub proof fn lemma_same_idf_compatible<N>(a: &NameWeighted<N>, b: &NameWeighted<N>, idf: &Idf)
    requires
        forall|i: int|
            0 <= i < a.spec_weights().len() ==> #[trigger] a.spec_weights()[i] as int
                == idf.spec_lookup(a.spec_pairs()[i].0),
        forall|j: int|
            0 <= j < b.spec_weights().len() ==> #[trigger] b.spec_weights()[j] as int
                == idf.spec_lookup(b.spec_pairs()[j].0),
        a.spec_weights().len() == a.spec_pairs().len(),
        b.spec_weights().len() == b.spec_pairs().len(),
    ensures
        compatible(a, b),
{
}

/// Scoring a profile against itself counts every token fully: the overlap
/// equals the squared norm.
proof fn lemma_num_prefix_self(pairs: Seq<(Seq<char>, u64)>, ws: Seq<u64>, c: TokenCounter, k: int)
    requires
        c.view_entries() == pairs,
        forall|p: int, q: int| 0 <= p < q < pairs.len() ==> pairs[p].0 != pairs[q].0,
        0 <= k <= pairs.len(),
        k <= ws.len(),
    ensures
        spec_num_prefix(pairs, ws, counter_fn(c), k) == spec_norm_sq_prefix(pairs, ws, k),
    decreases k,
{
    if k > 0 {
        lemma_num_prefix_self(pairs, ws, c, k - 1);
        lemma_seq_count_at(pairs, k - 1);
        assert(counter_fn(c)(pairs[k - 1].0) == pairs[k - 1].1);
    }
}

/// Self-match identity, Token mode: a non-degenerate profile scored against
/// itself gives exactly 1.0 in fixed point.
pub proof fn lemma_self_match_token<N>(a: &NameWeighted<N>)
    requires
        a.wf(),
        a.spec_norm_sq() > 0,
    ensures
        spec_token_score(a, a) == SCALE,
{
    let q = a.spec_norm_sq();
    lemma_num_prefix_self(a.spec_pairs(), a.spec_weights(), a.spec_counter(), a.spec_pairs().len() as int);
    assert(spec_num(a, a) == q);
    assert(is_isqrt(q * q, q)) by (nonlinear_arith)
        requires q >= 1;
    lemma_isqrt_unique(q * q, q);
    assert((q * SCALE) / q == SCALE) by (nonlinear_arith)
        requires q >= 1;
    assert(spec_clamp_score(SCALE as int) == SCALE);
}

/// An overlap against an all-zero count function is zero.
proof fn lemma_num_prefix_zero(
    pairs: Seq<(Seq<char>, u64)>,
    ws: Seq<u64>,
    cnt: spec_fn(Seq<char>) -> int,
    k: int,
)
    requires
        0 <= k <= pairs.len(),
        forall|i: int| 0 <= i < k ==> cnt(#[trigger] pairs[i].0) == 0,
    ensures
        spec_num_prefix(pairs, ws, cnt, k) == 0,
    decreases k,
{
    if k > 0 {
        lemma_num_prefix_zero(pairs, ws, cnt, k - 1);
        let o = cnt(pairs[k - 1].0);
        let c = pairs[k - 1].1 as int;
        let m = if c <= o {
            c
        } else {
            o
        };
        assert(m == 0);
        assert(m * spec_w2(ws[k - 1] as int) == 0) by (nonlinear_arith)
            requires m == 0;
    }
}

/// Disjoint vocabularies, Token mode: profiles sharing no token score
/// exactly 0.
pub proof fn lemma_disjoint_score_zero<N>(a: &NameWeighted<N>, b: &NameWeighted<N>)
    requires
        a.wf(),
        b.wf(),
        forall|t: Seq<char>|
            #[trigger] a.spec_counter().has_token(t) ==> !b.spec_counter().has_token(t),
    ensures
        spec_token_score(a, b) == 0,
{
    let pairs = a.spec_pairs();
    let cntb = counter_fn(b.spec_counter());
    assert forall|i: int| 0 <= i < pairs.len() implies cntb(#[trigger] pairs[i].0) == 0 by {
        lemma_seq_count_at(pairs, i);
        assert(a.spec_counter().has_token(pairs[i].0));
        lemma_seq_count_pos(b.spec_pairs(), pairs[i].0);
        lemma_seq_count_nonneg(b.spec_pairs(), pairs[i].0);
    }
    lemma_num_prefix_zero(pairs, a.spec_weights(), cntb, pairs.len() as int);
    if a.spec_norm_sq() > 0 && b.spec_norm_sq() > 0 {
        let d = spec_isqrt(a.spec_norm_sq() * b.spec_norm_sq());
        lemma_isqrt_exists(a.spec_norm_sq() * b.spec_norm_sq());
        assert(a.spec_norm_sq() * b.spec_norm_sq() >= 1) by (nonlinear_arith)
            requires a.spec_norm_sq() >= 1 && b.spec_norm_sq() >= 1;
        assert(d >= 1) by (nonlinear_arith)
            requires is_isqrt(a.spec_norm_sq() * b.spec_norm_sq(), d)
                && a.spec_norm_sq() * b.spec_norm_sq() >= 1;
        assert((0 * SCALE) / d == 0) by (nonlinear_arith)
            requires d >= 1;
    }
}

/// Overlaps agree when the two count functions agree on every key read.
proof fn lemma_num_prefix_cnt_eq(
    pairs: Seq<(Seq<char>, u64)>,
    ws: Seq<u64>,
    cnt1: spec_fn(Seq<char>) -> int,
    cnt2: spec_fn(Seq<char>) -> int,
    k: int,
)
    requires
        0 <= k <= pairs.len(),
        forall|i: int| 0 <= i < k ==> cnt1(#[trigger] pairs[i].0) == cnt2(pairs[i].0),
    ensures
        spec_num_prefix(pairs, ws, cnt1, k) == spec_num_prefix(pairs, ws, cnt2, k),
    decreases k,
{
    if k > 0 {
        lemma_num_prefix_cnt_eq(pairs, ws, cnt1, cnt2, k - 1);
    }
}

/// Changing a count function only at one token `t0` (from zero) adds
/// exactly that token's term to the overlap.
proof fn lemma_num_prefix_cnt_delta(
    pairs: Seq<(Seq<char>, u64)>,
    ws: Seq<u64>,
    cnt1: spec_fn(Seq<char>) -> int,
    cnt2: spec_fn(Seq<char>) -> int,
    t0: Seq<char>,
    k: int,
)
    requires
        0 <= k <= pairs.len(),
        k <= ws.len(),
        forall|p: int, q: int| 0 <= p < q < pairs.len() ==> pairs[p].0 != pairs[q].0,
        forall|t: Seq<char>| t != t0 ==> cnt1(t) == #[trigger] cnt2(t),
        cnt2(t0) == 0,
        cnt1(t0) >= 0,
    ensures
        (forall|j: int| 0 <= j < k ==> (#[trigger] pairs[j]).0 != t0) ==> spec_num_prefix(
            pairs,
            ws,
            cnt1,
            k,
        ) == spec_num_prefix(pairs, ws, cnt2, k),
        forall|j: int|
            0 <= j < k && (#[trigger] pairs[j]).0 == t0 ==> spec_num_prefix(pairs, ws, cnt1, k)
                == spec_num_prefix(pairs, ws, cnt2, k) + (if pairs[j].1 <= cnt1(t0) {
                pairs[j].1 as int
            } else {
                cnt1(t0)
            }) * spec_w2(ws[j] as int),
    decreases k,
{
    if k > 0 {
        lemma_num_prefix_cnt_delta(pairs, ws, cnt1, cnt2, t0, k - 1);
        let key = pairs[k - 1].0;
        let c = pairs[k - 1].1 as int;
        if key == t0 {
            // no earlier entry carries t0
            assert(forall|j: int| 0 <= j < k - 1 ==> (#[trigger] pairs[j]).0 != t0);
            let m2 = if c <= 0 {
                c
            } else {
                0int
            };
            assert(m2 == 0);
        }
    }
}

/// The overlap is symmetric for compatible profiles: induction over `a`'s
/// entries, carrying the already-seen prefix of `a` as a count function.
proof fn lemma_num_symmetric_aux<N>(a: &NameWeighted<N>, b: &NameWeighted<N>, k: int)
    requires
        a.wf(),
        b.wf(),
        compatible(a, b),
        0 <= k <= a.spec_pairs().len(),
    ensures
        spec_num_prefix(
            a.spec_pairs(),
            a.spec_weights(),
            counter_fn(b.spec_counter()),
            k,
        ) == spec_num_prefix(
            b.spec_pairs(),
            b.spec_weights(),
            prefix_fn(a.spec_pairs(), k),
            b.spec_pairs().len() as int,
        ),
    decreases k,
{
    let ap = a.spec_pairs();
    let aws = a.spec_weights();
    let bp = b.spec_pairs();
    let bws = b.spec_weights();
    let bl = bp.len() as int;
    if k == 0 {
        assert(ap.take(0) =~= Seq::<(Seq<char>, u64)>::empty());
        assert(forall|i: int|
            0 <= i < bl ==> prefix_fn(ap, 0)(#[trigger] bp[i].0) == 0);
        lemma_num_prefix_zero(bp, bws, prefix_fn(ap, 0), bl);
    } else {
        lemma_num_symmetric_aux(a, b, k - 1);
        let t0 = ap[k - 1].0;
        let c = ap[k - 1].1 as int;
        let cnt1 = prefix_fn(ap, k);
        let cnt2 = prefix_fn(ap, k - 1);
        // cnt1 and cnt2 differ exactly at t0, where cnt2 is 0 and cnt1 is c
        assert(ap.take(k).drop_last() =~= ap.take(k - 1));
        assert(ap.take(k).last() == ap[k - 1]);
        assert(cnt1(t0) == c);
        assert forall|t: Seq<char>| t != t0 implies cnt1(t) == #[trigger] cnt2(t) by {
            assert(seq_count(ap.take(k), t) == seq_count(ap.take(k - 1), t));
        }
        assert forall|j: int| 0 <= j < k - 1 implies (#[trigger] ap.take(k - 1)[j]).0 != t0 by {
            assert(ap[j].0 != ap[k - 1].0);
        }
        lemma_seq_count_absent(ap.take(k - 1), t0);
        assert(cnt2(t0) == 0);
        lemma_num_prefix_cnt_delta(bp, bws, cnt1, cnt2, t0, bl);
        let cntb = counter_fn(b.spec_counter());
        crate::tokens::lemma_seq_has_exists(bp, t0);
        crate::tokens::lemma_seq_count_pos(bp, t0);
        let m = if c <= cntb(t0) {
            c
        } else {
            cntb(t0)
        };
        assert(spec_num_prefix(ap, aws, cntb, k) == spec_num_prefix(ap, aws, cntb, k - 1) + m
            * spec_w2(aws[k - 1] as int));
        if crate::tokens::seq_has(bp, t0) {
            let j = choose|j: int| 0 <= j < bp.len() && bp[j].0 == t0;
            lemma_seq_count_at(bp, j);
            assert(cntb(t0) == bp[j].1);
            // the weights of the shared token agree
            assert(aws[k - 1] == bws[j]);
            assert(spec_num_prefix(bp, bws, cnt1, bl) == spec_num_prefix(bp, bws, cnt2, bl) + (
            if bp[j].1 <= c {
                bp[j].1 as int
            } else {
                c
            }) * spec_w2(bws[j] as int));
            assert(m == if bp[j].1 <= c {
                bp[j].1 as int
            } else {
                c
            });
        } else {
            lemma_seq_count_nonneg(bp, t0);
            assert(cntb(t0) == 0);
            assert(m == 0);
            assert(m * spec_w2(aws[k - 1] as int) == 0) by (nonlinear_arith)
                requires m == 0;
            assert(forall|j: int| 0 <= j < bl ==> (#[trigger] bp[j]).0 != t0);
            assert(spec_num_prefix(bp, bws, cnt1, bl) == spec_num_prefix(bp, bws, cnt2, bl));
        }
    }
}

/// Symmetry, Token mode: for profiles that weight shared tokens alike, the
/// score is symmetric.
pub proof fn lemma_token_score_symmetric<N>(a: &NameWeighted<N>, b: &NameWeighted<N>)
    requires
        a.wf(),
        b.wf(),
        compatible(a, b),
    ensures
        spec_token_score(a, b) == spec_token_score(b, a),
{
    assert(compatible(b, a));
    lemma_num_symmetric_aux(a, b, a.spec_pairs().len() as int);
    lemma_num_symmetric_aux(b, a, b.spec_pairs().len() as int);
    let ap = a.spec_pairs();
    let bp = b.spec_pairs();
    assert(ap.take(ap.len() as int) =~= ap);
    assert(bp.take(bp.len() as int) =~= bp);
    assert forall|i: int|
        0 <= i < bp.len() implies prefix_fn(ap, ap.len() as int)(#[trigger] bp[i].0)
        == counter_fn(a.spec_counter())(bp[i].0) by {
        assert(seq_count(ap.take(ap.len() as int), bp[i].0) == seq_count(ap, bp[i].0));
    }
    lemma_num_prefix_cnt_eq(
        bp,
        b.spec_weights(),
        prefix_fn(ap, ap.len() as int),
        counter_fn(a.spec_counter()),
        bp.len() as int,
    );
    assert forall|i: int|
        0 <= i < ap.len() implies prefix_fn(bp, bp.len() as int)(#[trigger] ap[i].0)
        == counter_fn(b.spec_counter())(ap[i].0) by {
        assert(seq_count(bp.take(bp.len() as int), ap[i].0) == seq_count(bp, ap[i].0));
    }
    lemma_num_prefix_cnt_eq(
        ap,
        a.spec_weights(),
        prefix_fn(bp, bp.len() as int),
        counter_fn(b.spec_counter()),
        ap.len() as int,
    );
    assert(spec_num(a, b) == spec_num(b, a));
}

} // verus!
