//! N-gram profiles: every distinct token of a record is broken into
//! character n-grams of a configurable window size, padded on both sides
//! with a sentinel so boundary n-grams stay distinguishable, and token
//! pairs are compared by normalized n-gram overlap.

use crate::fixed::{
    is_isqrt, isqrt_u128, lemma_isqrt_exists, lemma_u64_mul_fits, spec_isqrt, SCALE,
};
use crate::idf::Idf;
use crate::names::{NameContainer, NameProcessed, UnprocessedName, TOKEN_CAP};
use crate::norm::{build_weights, spec_norm_sq_prefix, NORM_SQ_BOUND, SCALE_U128};
use crate::score::{
    candidate_score, lemma_counts_sum, score_combination_queue, spec_candidate,
    spec_combination_score, Candidate,
};
use crate::strutil::{chars_vec, push_char};
use crate::tokens::{
    lemma_seq_count_nonneg, lemma_seq_total_nonneg, lemma_seq_total_take_le, seq_occ, seq_total,
    views_of, TokenCounter,
};
use vstd::prelude::*;

verus! {

/// The padding character placed before and after each token.
pub const SENTINEL: char = '\u{2060}';

/// A token padded with `w - 1` sentinels on each side.
pub open spec fn spec_padded(s: Seq<char>, w: int) -> Seq<char> {
    Seq::new((w - 1) as nat, |i: int| SENTINEL) + s + Seq::new((w - 1) as nat, |i: int| SENTINEL)
}

/// All `len + w - 1` windows of size `w` over the padded token, in order.
pub open spec fn spec_ngrams(s: Seq<char>, w: int) -> Seq<Seq<char>> {
    Seq::new((s.len() + w - 1) as nat, |i: int| spec_padded(s, w).subrange(i, i + w))
}

/// One token's character n-gram multiset.
pub struct NGram {
    counter: TokenCounter,
    n_ngrams: u64,
}

impl NGram {
    pub closed spec fn spec_counter(&self) -> TokenCounter {
        self.counter
    }

    pub closed spec fn spec_n(&self) -> int {
        self.n_ngrams as int
    }

    pub open spec fn wf(&self) -> bool {
        &&& self.spec_counter().wf()
        &&& self.spec_n() == self.spec_counter().total()
        &&& self.spec_n() >= 1
    }

    /// Multiplicity of the n-gram `g`.
    pub open spec fn spec_count(&self, g: Seq<char>) -> int {
        self.spec_counter().spec_count(g)
    }

    pub fn count(&self, g: &String) -> (c: u64)
        requires
            self.wf(),
        ensures
            c as int == self.spec_count(g@),
    {
        self.counter.get(g)
    }

    pub fn n_ngrams(&self) -> (n: u64)
        ensures
            n as int == self.spec_n(),
    {
        self.n_ngrams
    }
}

/// `g` is the n-gram multiset of token `t` under window size `w`.
pub open spec fn is_ngram_of(g: NGram, t: Seq<char>, w: int) -> bool {
    &&& g.wf()
    &&& g.spec_n() == t.len() + w - 1
    &&& forall|x: Seq<char>| g.spec_count(x) == seq_occ(spec_ngrams(t, w), x)
}

/// Concatenate characters into a string.
pub fn mconcat_chars(cs: Vec<char>) -> (r: String)
    ensures
        r@ == cs@,
{
    let mut r = String::new();
    let n = cs.len();
    let mut i: usize = 0;
    proof {
        assert(r@ =~= cs@.take(0));
    }
    while i < n
        invariant
            i <= n,
            n == cs@.len(),
            r@ =~= cs@.take(i as int),
        decreases n - i,
    {
        push_char(&mut r, cs[i]);
        proof {
            assert(r@ =~= cs@.take(i as int + 1));
        }
        i = i + 1;
    }
    proof {
        assert(cs@.take(n as int) =~= cs@);
    }
    r
}

/// Break a token into its padded character n-grams of size `window_size`.
pub fn n_gram(s: &str, window_size: usize) -> (r: NGram)
    requires
        2 <= window_size <= TOKEN_CAP,
        s@.len() <= TOKEN_CAP,
    ensures
        is_ngram_of(r, s@, window_size as int),
{
    let cs = chars_vec(s);
    let w1 = window_size - 1;
    let n = cs.len();
    let ghost w = window_size as int;
    let ghost padded_spec = spec_padded(s@, w);

    let mut padded: Vec<char> = Vec::new();
    let mut i: usize = 0;
    while i < w1
        invariant
            i <= w1,
            padded@.len() == i,
            forall|k: int| 0 <= k < i ==> #[trigger] padded@[k] == SENTINEL,
        decreases w1 - i,
    {
        padded.push(SENTINEL);
        i = i + 1;
    }
    let mut j: usize = 0;
    while j < n
        invariant
            j <= n,
            n == cs@.len(),
            padded@.len() == w1 + j,
            forall|k: int| 0 <= k < w1 ==> #[trigger] padded@[k] == SENTINEL,
            forall|k: int| 0 <= k < j ==> #[trigger] padded@[w1 + k] == cs@[k],
        decreases n - j,
    {
        padded.push(cs[j]);
        j = j + 1;
    }
    let mut i2: usize = 0;
    while i2 < w1
        invariant
            i2 <= w1,
            n == cs@.len(),
            padded@.len() == w1 + n + i2,
            forall|k: int| 0 <= k < w1 ==> #[trigger] padded@[k] == SENTINEL,
            forall|k: int| 0 <= k < n ==> #[trigger] padded@[w1 + k] == cs@[k],
            forall|k: int| 0 <= k < i2 ==> #[trigger] padded@[w1 + n + k] == SENTINEL,
        decreases w1 - i2,
    {
        padded.push(SENTINEL);
        i2 = i2 + 1;
    }
    proof {
        assert(padded_spec.len() == w1 + n + w1);
        assert forall|k: int| 0 <= k < padded@.len() implies padded@[k] == padded_spec[k] by {
            if k < w1 {
            } else if k < w1 + n {
                assert(padded@[w1 + (k - w1)] == cs@[k - w1]);
            } else {
                assert(padded@[w1 + n + (k - w1 - n)] == SENTINEL);
            }
        }
        assert(padded@ =~= padded_spec);
    }

    let plen = padded.len();
    let total_windows = n + w1;
    let mut windows: Vec<String> = Vec::new();
    let mut p: usize = 0;
    while p < total_windows
        invariant
            p <= total_windows,
            total_windows == n + w1,
            w1 == window_size - 1,
            2 <= window_size,
            n == cs@.len(),
            n == s@.len(),
            padded@ == padded_spec,
            padded_spec == spec_padded(s@, w),
            w == window_size as int,
            padded@.len() == n + 2 * (w1 as int),
            plen == padded@.len(),
            windows@.len() == p,
            forall|q: int|
                0 <= q < p ==> (#[trigger] windows@[q])@ == spec_ngrams(s@, w)[q],
        decreases total_windows - p,
    {
        let mut wchars: Vec<char> = Vec::new();
        let mut k: usize = 0;
        while k < window_size
            invariant
                k <= window_size,
                p + window_size <= plen,
                plen == padded@.len(),
                wchars@.len() == k,
                forall|q: int| 0 <= q < k ==> #[trigger] wchars@[q] == padded@[p + q],
            decreases window_size - k,
        {
            wchars.push(padded[p + k]);
            k = k + 1;
        }
        let g = mconcat_chars(wchars);
        proof {
            assert(g@ =~= padded_spec.subrange(p as int, p as int + w));
            assert(spec_ngrams(s@, w)[p as int] == padded_spec.subrange(p as int, p as int + w));
        }
        windows.push(g);
        p = p + 1;
    }
    let counter = TokenCounter::from_tokens(&windows);
    proof {
        assert(views_of(windows@) =~= spec_ngrams(s@, w));
    }
    let nn: u64 = total_windows as u64;
    let r = NGram { counter, n_ngrams: nn };
    proof {
        assert(r.spec_counter().total() == windows@.len());
    }
    r
}

/// `sum over a's n-grams of min(count_a, count_b)`: the raw overlap of two
/// n-gram multisets.
pub open spec fn spec_common_prefix(
    fpairs: Seq<(Seq<char>, u64)>,
    tc: TokenCounter,
    k: int,
) -> int
    decreases k,
{
    if k <= 0 {
        0
    } else {
        let c = fpairs[k - 1].1 as int;
        let o = tc.spec_count(fpairs[k - 1].0);
        let m = if c <= o {
            c
        } else {
            o
        };
        spec_common_prefix(fpairs, tc, k - 1) + m
    }
}

proof fn lemma_common_prefix_bound(fpairs: Seq<(Seq<char>, u64)>, tc: TokenCounter, k: int)
    requires
        0 <= k <= fpairs.len(),
    ensures
        0 <= spec_common_prefix(fpairs, tc, k) <= seq_total(fpairs.take(k)),
    decreases k,
{
    if k > 0 {
        lemma_common_prefix_bound(fpairs, tc, k - 1);
        lemma_seq_count_nonneg(tc.view_entries(), fpairs[k - 1].0);
        assert(fpairs.take(k).drop_last() =~= fpairs.take(k - 1));
        assert(fpairs.take(k).last() == fpairs[k - 1]);
    } else {
        assert(fpairs.take(0) =~= Seq::<(Seq<char>, u64)>::empty());
    }
}

/// The raw overlap of `fpairs` against any count function.
pub open spec fn spec_common_cnt(
    fpairs: Seq<(Seq<char>, u64)>,
    cnt: spec_fn(Seq<char>) -> int,
    k: int,
) -> int
    decreases k,
{
    if k <= 0 {
        0
    } else {
        let c = fpairs[k - 1].1 as int;
        let o = cnt(fpairs[k - 1].0);
        let m = if c <= o {
            c
        } else {
            o
        };
        spec_common_cnt(fpairs, cnt, k - 1) + m
    }
}

proof fn lemma_common_prefix_is_cnt(fpairs: Seq<(Seq<char>, u64)>, tc: TokenCounter, k: int)
    requires
        0 <= k,
    ensures
        spec_common_prefix(fpairs, tc, k) == spec_common_cnt(
            fpairs,
            crate::weighted::counter_fn(tc),
            k,
        ),
    decreases k,
{
    if k > 0 {
        lemma_common_prefix_is_cnt(fpairs, tc, k - 1);
    }
}

proof fn lemma_common_cnt_eq(
    pairs: Seq<(Seq<char>, u64)>,
    cnt1: spec_fn(Seq<char>) -> int,
    cnt2: spec_fn(Seq<char>) -> int,
    k: int,
)
    requires
        0 <= k <= pairs.len(),
        forall|i: int| 0 <= i < k ==> cnt1(#[trigger] pairs[i].0) == cnt2(pairs[i].0),
    ensures
        spec_common_cnt(pairs, cnt1, k) == spec_common_cnt(pairs, cnt2, k),
    decreases k,
{
    if k > 0 {
        lemma_common_cnt_eq(pairs, cnt1, cnt2, k - 1);
    }
}

proof fn lemma_common_cnt_zero(
    pairs: Seq<(Seq<char>, u64)>,
    cnt: spec_fn(Seq<char>) -> int,
    k: int,
)
    requires
        0 <= k <= pairs.len(),
        forall|i: int| 0 <= i < k ==> cnt(#[trigger] pairs[i].0) == 0,
    ensures
        spec_common_cnt(pairs, cnt, k) == 0,
    decreases k,
{
    if k > 0 {
        lemma_common_cnt_zero(pairs, cnt, k - 1);
        let c = pairs[k - 1].1 as int;
        let o = cnt(pairs[k - 1].0);
        let m = if c <= o {
            c
        } else {
            o
        };
        assert(m == 0);
    }
}

/// Raising one token's count from zero adds exactly that token's overlap
/// term.
proof fn lemma_common_cnt_delta(
    pairs: Seq<(Seq<char>, u64)>,
    cnt1: spec_fn(Seq<char>) -> int,
    cnt2: spec_fn(Seq<char>) -> int,
    t0: Seq<char>,
    k: int,
)
    requires
        0 <= k <= pairs.len(),
        forall|p: int, q: int| 0 <= p < q < pairs.len() ==> pairs[p].0 != pairs[q].0,
        forall|t: Seq<char>| t != t0 ==> cnt1(t) == #[trigger] cnt2(t),
        cnt2(t0) == 0,
        cnt1(t0) >= 0,
    ensures
        (forall|j: int| 0 <= j < k ==> (#[trigger] pairs[j]).0 != t0) ==> spec_common_cnt(
            pairs,
            cnt1,
            k,
        ) == spec_common_cnt(pairs, cnt2, k),
        forall|j: int|
            0 <= j < k && (#[trigger] pairs[j]).0 == t0 ==> spec_common_cnt(pairs, cnt1, k)
                == spec_common_cnt(pairs, cnt2, k) + (if pairs[j].1 <= cnt1(t0) {
                pairs[j].1 as int
            } else {
                cnt1(t0)
            }),
    decreases k,
{
    if k > 0 {
        lemma_common_cnt_delta(pairs, cnt1, cnt2, t0, k - 1);
        let key = pairs[k - 1].0;
        let c = pairs[k - 1].1 as int;
        if key == t0 {
            assert(forall|j: int| 0 <= j < k - 1 ==> (#[trigger] pairs[j]).0 != t0);
            let m2 = if c <= 0 {
                c
            } else {
                0int
            };
            assert(m2 == 0);
        }
    }
}

/// The raw overlap is symmetric: summing the per-token minimum against the
/// other side's counts gives the same total from either side.  Induction
/// over `a`'s entries, carrying the already-seen prefix of `a` as a count
/// function.
proof fn lemma_common_symmetric_aux(a_tc: TokenCounter, b_tc: TokenCounter, k: int)
    requires
        a_tc.wf(),
        b_tc.wf(),
        0 <= k <= a_tc.view_entries().len(),
    ensures
        spec_common_cnt(
            a_tc.view_entries(),
            crate::weighted::counter_fn(b_tc),
            k,
        ) == spec_common_cnt(
            b_tc.view_entries(),
            crate::weighted::prefix_fn(a_tc.view_entries(), k),
            b_tc.view_entries().len() as int,
        ),
    decreases k,
{
    let ap = a_tc.view_entries();
    let bp = b_tc.view_entries();
    let bl = bp.len() as int;
    if k == 0 {
        assert(ap.take(0) =~= Seq::<(Seq<char>, u64)>::empty());
        assert(forall|i: int|
            0 <= i < bl ==> crate::weighted::prefix_fn(ap, 0)(#[trigger] bp[i].0) == 0);
        lemma_common_cnt_zero(bp, crate::weighted::prefix_fn(ap, 0), bl);
    } else {
        lemma_common_symmetric_aux(a_tc, b_tc, k - 1);
        let t0 = ap[k - 1].0;
        let c = ap[k - 1].1 as int;
        let cnt1 = crate::weighted::prefix_fn(ap, k);
        let cnt2 = crate::weighted::prefix_fn(ap, k - 1);
        assert(ap.take(k).drop_last() =~= ap.take(k - 1));
        assert(ap.take(k).last() == ap[k - 1]);
        assert(cnt1(t0) == c);
        assert forall|t: Seq<char>| t != t0 implies cnt1(t) == #[trigger] cnt2(t) by {
            assert(crate::tokens::seq_count(ap.take(k), t) == crate::tokens::seq_count(
                ap.take(k - 1),
                t,
            ));
        }
        assert forall|j: int| 0 <= j < k - 1 implies (#[trigger] ap.take(k - 1)[j]).0 != t0 by {
            assert(ap[j].0 != ap[k - 1].0);
        }
        crate::tokens::lemma_seq_count_absent(ap.take(k - 1), t0);
        assert(cnt2(t0) == 0);
        lemma_common_cnt_delta(bp, cnt1, cnt2, t0, bl);
        let cntb = crate::weighted::counter_fn(b_tc);
        let m = if c <= cntb(t0) {
            c
        } else {
            cntb(t0)
        };
        assert(spec_common_cnt(ap, cntb, k) == spec_common_cnt(ap, cntb, k - 1) + m);
        crate::tokens::lemma_seq_has_exists(bp, t0);
        crate::tokens::lemma_seq_count_pos(bp, t0);
        if crate::tokens::seq_has(bp, t0) {
            let j = choose|j: int| 0 <= j < bp.len() && bp[j].0 == t0;
            crate::tokens::lemma_seq_count_at(bp, j);
            assert(cntb(t0) == bp[j].1);
            assert(spec_common_cnt(bp, cnt1, bl) == spec_common_cnt(bp, cnt2, bl) + (if bp[j].1
                <= c {
                bp[j].1 as int
            } else {
                c
            }));
            assert(m == if bp[j].1 <= c {
                bp[j].1 as int
            } else {
                c
            });
        } else {
            crate::tokens::lemma_seq_count_nonneg(bp, t0);
            assert(cntb(t0) == 0);
            assert(m == 0);
            assert(forall|j: int| 0 <= j < bl ==> (#[trigger] bp[j]).0 != t0);
            assert(spec_common_cnt(bp, cnt1, bl) == spec_common_cnt(bp, cnt2, bl));
        }
    }
}

/// The normalized n-gram overlap is symmetric in its two multisets.
pub proof fn lemma_ngram_sim_symmetric(a: NGram, b: NGram)
    requires
        a.wf(),
        b.wf(),
    ensures
        spec_ngram_sim(a, b) == spec_ngram_sim(b, a),
{
    let ap = a.spec_counter().view_entries();
    let bp = b.spec_counter().view_entries();
    lemma_common_prefix_is_cnt(ap, b.spec_counter(), ap.len() as int);
    lemma_common_prefix_is_cnt(bp, a.spec_counter(), bp.len() as int);
    lemma_common_symmetric_aux(a.spec_counter(), b.spec_counter(), ap.len() as int);
    assert(ap.take(ap.len() as int) =~= ap);
    assert forall|i: int|
        0 <= i < bp.len() implies crate::weighted::prefix_fn(ap, ap.len() as int)(
        #[trigger] bp[i].0,
    ) == crate::weighted::counter_fn(a.spec_counter())(bp[i].0) by {
        assert(crate::tokens::seq_count(ap.take(ap.len() as int), bp[i].0)
            == crate::tokens::seq_count(ap, bp[i].0));
    }
    lemma_common_cnt_eq(
        bp,
        crate::weighted::prefix_fn(ap, ap.len() as int),
        crate::weighted::counter_fn(a.spec_counter()),
        bp.len() as int,
    );
    assert(a.spec_n() * b.spec_n() * SCALE * SCALE == b.spec_n() * a.spec_n() * SCALE * SCALE)
        by (nonlinear_arith);
}

/// The normalized n-gram overlap of two tokens: the raw overlap over the
/// The normalized n-gram overlap of two tokens: the raw overlap over the
/// geometric mean of the two n-gram totals, capped at 1.0.  (The cap is a
/// defensive bound on the fixed-point division.)  The root is taken at
/// fixed-point scale so that small n-gram totals keep their precision.
pub open spec fn spec_ngram_sim(a: NGram, b: NGram) -> int {
    if a.spec_n() <= 0 || b.spec_n() <= 0 {
        0
    } else {
        let common = spec_common_prefix(
            a.spec_counter().view_entries(),
            b.spec_counter(),
            a.spec_counter().view_entries().len() as int,
        );
        let v = (common * SCALE * SCALE) / spec_isqrt(
            a.spec_n() * b.spec_n() * SCALE * SCALE,
        );
        if v > SCALE {
            SCALE as int
        } else {
            v
        }
    }
}

impl NGram {
    /// Normalized overlap with another n-gram multiset.
    pub fn similarity(&self, other: &NGram) -> (sim: u64)
        requires
            self.wf(),
            other.wf(),
            self.spec_n() <= 2 * TOKEN_CAP,
            other.spec_n() <= 2 * TOKEN_CAP,
        ensures
            sim as int == spec_ngram_sim(*self, *other),
            sim <= SCALE,
    {
        let ghost fpairs = self.spec_counter().view_entries();
        let fl = self.counter.num_tokens();
        let mut common: u64 = 0;
        let mut i: usize = 0;
        proof {
            lemma_seq_total_nonneg(fpairs.take(0));
            assert(fpairs.take(0) =~= Seq::<(Seq<char>, u64)>::empty());
        }
        while i < fl
            invariant
                self.wf(),
                other.wf(),
                fpairs == self.spec_counter().view_entries(),
                fl == fpairs.len(),
                i <= fl,
                common as int == spec_common_prefix(fpairs, other.spec_counter(), i as int),
                common as int <= seq_total(fpairs.take(i as int)),
            decreases fl - i,
        {
            let cb = other.counter.get(self.counter.token_at(i));
            let ca = self.counter.count_at(i);
            let m = if ca <= cb {
                ca
            } else {
                cb
            };
            proof {
                assert(fpairs.take(i as int + 1).drop_last() =~= fpairs.take(i as int));
                assert(fpairs.take(i as int + 1).last() == fpairs[i as int]);
                lemma_seq_total_take_le(fpairs, i as int + 1);
                lemma_seq_count_nonneg(other.spec_counter().view_entries(), fpairs[i as int].0);
            }
            common = common + m;
            i = i + 1;
        }
        proof {
            assert(fpairs.take(fl as int) =~= fpairs);
            assert((self.n_ngrams as int) * (other.n_ngrams as int)
                <= 0x40_0000_0000_0000int) by (nonlinear_arith)
                requires 1 <= self.n_ngrams <= 2 * TOKEN_CAP && 1 <= other.n_ngrams <= 2
                    * TOKEN_CAP && TOKEN_CAP == 1_048_576u64;
            assert((self.n_ngrams as int) * (other.n_ngrams as int) * (SCALE_U128 as int)
                <= 0x40_0000_0000_0000int * 1_000_000_000int) by (nonlinear_arith)
                requires 0 <= (self.n_ngrams as int) * (other.n_ngrams as int)
                    <= 0x40_0000_0000_0000int && SCALE_U128 == 1_000_000_000u128;
            assert((self.n_ngrams as int) * (other.n_ngrams as int) * (SCALE_U128 as int) * (
            SCALE_U128 as int) <= 0x40_0000_0000_0000int * 1_000_000_000int * 1_000_000_000int)
                by (nonlinear_arith)
                requires 0 <= (self.n_ngrams as int) * (other.n_ngrams as int) * (
                SCALE_U128 as int) <= 0x40_0000_0000_0000int * 1_000_000_000int && SCALE_U128
                    == 1_000_000_000u128;
        }
        let den_in: u128 = (self.n_ngrams as u128) * (other.n_ngrams as u128) * SCALE_U128
            * SCALE_U128;
        let den: u128 = isqrt_u128(den_in);
        proof {
            lemma_isqrt_exists(den_in as int);
            assert(den_in >= 1) by (nonlinear_arith)
                requires self.n_ngrams >= 1 && other.n_ngrams >= 1 && den_in == (
                self.n_ngrams as int) * (other.n_ngrams as int) * (SCALE_U128 as int) * (
                SCALE_U128 as int) && SCALE_U128 == 1_000_000_000u128;
            assert(is_isqrt(den_in as int, den as int));
            if den == 0 {
                assert(den_in < ((den as int) + 1) * ((den as int) + 1));
                assert(false) by (nonlinear_arith)
                    requires den_in >= 1 && den as int == 0 && den_in < ((den as int) + 1) * ((
                    den as int) + 1);
            }
            assert((common as int) * (SCALE_U128 as int) <= 0x20_0000int * 1_000_000_000int)
                by (nonlinear_arith)
                requires 0 <= common <= 2 * TOKEN_CAP && TOKEN_CAP == 1_048_576u64 && SCALE_U128
                    == 1_000_000_000u128;
            assert((common as int) * (SCALE_U128 as int) * (SCALE_U128 as int) <= 0x20_0000int
                * 1_000_000_000int * 1_000_000_000int) by (nonlinear_arith)
                requires 0 <= (common as int) * (SCALE_U128 as int) <= 0x20_0000int
                    * 1_000_000_000int && SCALE_U128 == 1_000_000_000u128;
        }
        let v: u128 = ((common as u128) * SCALE_U128 * SCALE_U128) / den;
        if v > (SCALE as u128) {
            SCALE
        } else {
            v as u64
        }
    }
}

proof fn lemma_common_prefix_self(pairs: Seq<(Seq<char>, u64)>, tc: TokenCounter, k: int)
    requires
        tc.view_entries() == pairs,
        forall|p: int, q: int| 0 <= p < q < pairs.len() ==> pairs[p].0 != pairs[q].0,
        0 <= k <= pairs.len(),
    ensures
        spec_common_prefix(pairs, tc, k) == seq_total(pairs.take(k)),
    decreases k,
{
    if k > 0 {
        lemma_common_prefix_self(pairs, tc, k - 1);
        crate::tokens::lemma_seq_count_at(pairs, k - 1);
        assert(pairs.take(k).drop_last() =~= pairs.take(k - 1));
        assert(pairs.take(k).last() == pairs[k - 1]);
    } else {
        assert(pairs.take(0) =~= Seq::<(Seq<char>, u64)>::empty());
    }
}

/// The per-token half of the self-match identity: a token's n-gram
/// multiset is fully similar to itself, exactly 1.0 in fixed point.
pub proof fn lemma_ngram_self_similarity(g: NGram)
    requires
        g.wf(),
    ensures
        spec_ngram_sim(g, g) == SCALE,
{
    let pairs = g.spec_counter().view_entries();
    let n = g.spec_n();
    lemma_common_prefix_self(pairs, g.spec_counter(), pairs.len() as int);
    assert(pairs.take(pairs.len() as int) =~= pairs);
    let common = spec_common_prefix(pairs, g.spec_counter(), pairs.len() as int);
    assert(common == n);
    let den_in = n * n * (SCALE as int) * (SCALE as int);
    let r = n * (SCALE as int);
    assert(is_isqrt(den_in, r)) by (nonlinear_arith)
        requires n >= 1 && SCALE == 1_000_000_000u64 && den_in == n * n * (SCALE as int) * (
        SCALE as int) && r == n * (SCALE as int);
    crate::fixed::lemma_isqrt_unique(den_in, r);
    assert((common * (SCALE as int) * (SCALE as int)) / r == SCALE) by (nonlinear_arith)
        requires common == n && n >= 1 && SCALE == 1_000_000_000u64 && r == n * (SCALE as int);
}

/// A record's n-gram profile: each distinct token with its n-gram multiset
/// A record's n-gram profile: each distinct token with its n-gram multiset
/// and IDF weight, plus the record's token multiset and squared norm.
pub struct NameNGrams<N> {
    name: N,
    token_counter: TokenCounter,
    token_ngrams: Vec<NGram>,
    weights: Vec<u64>,
    norm_sq: u64,
}

impl<N> NameContainer<N> for NameNGrams<N> where N: UnprocessedName {
    fn get_name(&self) -> &N {
        &self.name
    }
}

impl<N> NameNGrams<N> {
    pub closed spec fn spec_name(&self) -> N {
        self.name
    }

    pub closed spec fn spec_counter(&self) -> TokenCounter {
        self.token_counter
    }

    pub closed spec fn spec_ngram_list(&self) -> Seq<NGram> {
        self.token_ngrams@
    }

    pub closed spec fn spec_weights(&self) -> Seq<u64> {
        self.weights@
    }

    pub closed spec fn spec_norm_sq(&self) -> int {
        self.norm_sq as int
    }

    pub open spec fn spec_pairs(&self) -> Seq<(Seq<char>, u64)> {
        self.spec_counter().view_entries()
    }

    pub open spec fn wf(&self) -> bool {
        &&& self.spec_counter().wf()
        &&& self.spec_counter().total() <= TOKEN_CAP
        &&& self.spec_weights().len() == self.spec_pairs().len()
        &&& self.spec_ngram_list().len() == self.spec_pairs().len()
        &&& forall|i: int|
            0 <= i < self.spec_weights().len() ==> #[trigger] self.spec_weights()[i]
                <= crate::fixed::LN_BOUND
        &&& forall|i: int|
            0 <= i < self.spec_ngram_list().len() ==> (#[trigger] self.spec_ngram_list()[i]).wf()
                && self.spec_ngram_list()[i].spec_n() <= 2 * TOKEN_CAP
        &&& self.spec_norm_sq() == spec_norm_sq_prefix(
            self.spec_pairs(),
            self.spec_weights(),
            self.spec_pairs().len() as int,
        )
        &&& self.spec_norm_sq() <= NORM_SQ_BOUND
    }

    pub fn name(&self) -> (r: &N)
        ensures
            r == &self.spec_name(),
    {
        &self.name
    }

    pub fn norm_sq(&self) -> (r: u64)
        ensures
            r as int == self.spec_norm_sq(),
    {
        self.norm_sq
    }

    /// Weight each token and precompute its n-gram multiset.
    pub fn new(np: NameProcessed<N>, idf: &Idf, window_size: usize) -> (r: NameNGrams<N>)
        requires
            np.wf(),
            idf.wf(),
            2 <= window_size <= TOKEN_CAP,
        ensures
            r.wf(),
            r.spec_name() == np.name,
            r.spec_counter() == np.token_counter,
            forall|i: int|
                0 <= i < r.spec_weights().len() ==> #[trigger] r.spec_weights()[i] as int
                    == idf.spec_lookup(r.spec_pairs()[i].0),
            forall|i: int|
                0 <= i < r.spec_ngram_list().len() ==> is_ngram_of(
                    #[trigger] r.spec_ngram_list()[i],
                    r.spec_pairs()[i].0,
                    window_size as int,
                ),
    {
        let NameProcessed { name, token_counter } = np;
        let (weights, norm_sq) = build_weights(&token_counter, idf);
        let fl = token_counter.num_tokens();
        let mut token_ngrams: Vec<NGram> = Vec::new();
        let mut i: usize = 0;
        while i < fl
            invariant
                token_counter.wf(),
                forall|q: int|
                    0 <= q < token_counter.view_entries().len()
                        ==> (#[trigger] token_counter.view_entries()[q]).0.len() <= TOKEN_CAP,
                2 <= window_size <= TOKEN_CAP,
                fl == token_counter.view_entries().len(),
                i <= fl,
                token_ngrams@.len() == i,
                forall|q: int|
                    0 <= q < i ==> is_ngram_of(
                        #[trigger] token_ngrams@[q],
                        token_counter.view_entries()[q].0,
                        window_size as int,
                    ),
            decreases fl - i,
        {
            let tok = token_counter.token_at(i);
            let g = n_gram(tok.as_str(), window_size);
            token_ngrams.push(g);
            i = i + 1;
        }
        NameNGrams { name, token_counter, token_ngrams, weights, norm_sq }
    }
}

/// The count vector of a profile's tokens, by index.
pub open spec fn spec_counts_of(pairs: Seq<(Seq<char>, u64)>) -> Seq<u64> {
    pairs.map_values(|p: (Seq<char>, u64)| p.1)
}

/// The full cross-product candidate queue of two n-gram profiles: one
/// candidate per token pair, scored by n-gram overlap and both weights.
pub open spec fn spec_ngram_queue<N>(a: &NameNGrams<N>, b: &NameNGrams<N>) -> Seq<Candidate> {
    let fl = a.spec_pairs().len() as int;
    let tl = b.spec_pairs().len() as int;
    Seq::new(
        (fl * tl) as nat,
        |k: int|
            (
                spec_candidate(
                    spec_ngram_sim(a.spec_ngram_list()[k / tl], b.spec_ngram_list()[k % tl]),
                    a.spec_weights()[k / tl] as int,
                    b.spec_weights()[k % tl] as int,
                ) as u64,
                (k / tl) as usize,
                (k % tl) as usize,
            ),
    )
}

/// The N-Gram mode score of a pair of records.
pub open spec fn spec_ngram_score<N>(a: &NameNGrams<N>, b: &NameNGrams<N>) -> int {
    spec_combination_score(
        spec_ngram_queue(a, b),
        spec_counts_of(a.spec_pairs()),
        spec_counts_of(b.spec_pairs()),
        a.spec_norm_sq(),
        b.spec_norm_sq(),
    )
}

/// Symmetry of the n-gram mode's cross-product candidate set: swapping
/// the two profiles transposes every candidate with the same score.
/// Together with [`crate::score::lemma_greedy_transpose`] this pins the
/// symmetry of everything around the sort; the sort itself resolves
/// equal-score ties by generation order, which is the one place the two
/// directions may differ.
pub proof fn lemma_ngram_queues_transposed<N>(a: &NameNGrams<N>, b: &NameNGrams<N>)
    requires
        a.wf(),
        b.wf(),
    ensures
        spec_ngram_queue(b, a).len() == spec_ngram_queue(a, b).len(),
        forall|i: int, j: int|
            #![trigger spec_ngram_queue(a, b)[i * b.spec_pairs().len() + j]]
            0 <= i < a.spec_pairs().len() && 0 <= j < b.spec_pairs().len() ==> {
                let e = spec_ngram_queue(a, b)[i * b.spec_pairs().len() + j];
                spec_ngram_queue(b, a)[j * a.spec_pairs().len() + i] == (e.0, e.2, e.1)
            },
{
    let fl = a.spec_pairs().len() as int;
    let tl = b.spec_pairs().len() as int;
    let q1 = spec_ngram_queue(a, b);
    let q2 = spec_ngram_queue(b, a);
    assert(q1.len() == fl * tl);
    assert(q2.len() == tl * fl);
    assert(fl * tl == tl * fl) by (nonlinear_arith);
    assert forall|i: int, j: int|
        #![trigger q1[i * tl + j]]
        0 <= i < fl && 0 <= j < tl implies {
        let e = q1[i * tl + j];
        q2[j * fl + i] == (e.0, e.2, e.1)
    } by {
        let k1 = i * tl + j;
        let k2 = j * fl + i;
        assert(0 <= k1 < fl * tl) by (nonlinear_arith)
            requires k1 == i * tl + j && 0 <= i < fl && 0 <= j < tl;
        assert(0 <= k2 < tl * fl) by (nonlinear_arith)
            requires k2 == j * fl + i && 0 <= i < fl && 0 <= j < tl;
        vstd::arithmetic::div_mod::lemma_fundamental_div_mod_converse_div(k1, tl, i, j);
        vstd::arithmetic::div_mod::lemma_fundamental_div_mod_converse_mod(k1, tl, i, j);
        vstd::arithmetic::div_mod::lemma_fundamental_div_mod_converse_div(k2, fl, j, i);
        vstd::arithmetic::div_mod::lemma_fundamental_div_mod_converse_mod(k2, fl, j, i);
        lemma_ngram_sim_symmetric(a.spec_ngram_list()[i], b.spec_ngram_list()[j]);
        crate::score::lemma_candidate_symmetric(
            spec_ngram_sim(a.spec_ngram_list()[i], b.spec_ngram_list()[j]),
            a.spec_weights()[i] as int,
            b.spec_weights()[j] as int,
        );
    }
}

impl<N> NameNGrams<N> {
    /// Score this record against `to_name`: all token-pair n-gram overlap
    /// candidates are combined by the greedy assignment scorer and
    /// normalized by both records' norms.
    pub fn compute_match_score(&self, to_name: &Self) -> (score: u64)
        requires
            self.wf(),
            to_name.wf(),
        ensures
            score as int == spec_ngram_score(self, to_name),
            score <= crate::fixed::SCALE,
    {
        let ghost qspec = spec_ngram_queue(self, to_name);
        let fl = self.token_counter.num_tokens();
        let tl = to_name.token_counter.num_tokens();
        let ghost tli = tl as int;

        let mut queue: Vec<Candidate> = Vec::new();
        let mut i: usize = 0;
        proof {
            assert(fl as int * tli >= 0) by (nonlinear_arith)
                requires fl as int >= 0 && tli >= 0;
            assert(qspec.len() == fl as int * tli);
            assert(0 as int * tli == 0) by (nonlinear_arith);
        }
        while i < fl
            invariant
                self.wf(),
                to_name.wf(),
                qspec == spec_ngram_queue(self, to_name),
                fl == self.spec_pairs().len(),
                tl == to_name.spec_pairs().len(),
                tli == tl as int,
                i <= fl,
                queue@.len() == i as int * tli,
                qspec.len() == fl as int * tli,
                forall|k: int| 0 <= k < queue@.len() ==> #[trigger] queue@[k] == qspec[k],
                crate::score::queue_ok(queue@, fl as int, tli),
            decreases fl - i,
        {
            let mut j: usize = 0;
            proof {
                assert(i as int * tli + 0 == i as int * tli);
            }
            while j < tl
                invariant
                    self.wf(),
                    to_name.wf(),
                    qspec == spec_ngram_queue(self, to_name),
                    fl == self.spec_pairs().len(),
                    tl == to_name.spec_pairs().len(),
                    tli == tl as int,
                    i < fl,
                    j <= tl,
                    queue@.len() == i as int * tli + j as int,
                    qspec.len() == fl as int * tli,
                    forall|k: int| 0 <= k < queue@.len() ==> #[trigger] queue@[k] == qspec[k],
                    crate::score::queue_ok(queue@, fl as int, tli),
                decreases tl - j,
            {
                let sim = self.token_ngrams[i].similarity(&to_name.token_ngrams[j]);
                let c = candidate_score(sim, self.weights[i], to_name.weights[j]);
                let ghost k = i as int * tli + j as int;
                proof {
                    assert(0 <= k < fl as int * tli) by (nonlinear_arith)
                        requires k == i as int * tli + j as int && 0 <= i < fl && 0 <= j < tli
                            && 0 <= tli;
                    vstd::arithmetic::div_mod::lemma_fundamental_div_mod_converse_div(
                        k,
                        tli,
                        i as int,
                        j as int,
                    );
                    vstd::arithmetic::div_mod::lemma_fundamental_div_mod_converse_mod(
                        k,
                        tli,
                        i as int,
                        j as int,
                    );
                    assert(k == i as int * tli + j as int);
                    assert(qspec[k].1 == (i as usize) && qspec[k].2 == (j as usize));
                    assert(qspec[k].0 == spec_candidate(
                        spec_ngram_sim(
                            self.spec_ngram_list()[i as int],
                            to_name.spec_ngram_list()[j as int],
                        ),
                        self.spec_weights()[i as int] as int,
                        to_name.spec_weights()[j as int] as int,
                    ) as u64);
                }
                queue.push((c, i, j));
                proof {
                    assert(queue@[k] == qspec[k]);
                }
                j = j + 1;
            }
            proof {
                assert(i as int * tli + tli == (i as int + 1) * tli) by (nonlinear_arith);
            }
            i = i + 1;
        }
        proof {
            assert(queue@ =~= qspec);
        }

        let mut fc: Vec<u64> = Vec::new();
        let mut p: usize = 0;
        while p < fl
            invariant
                self.wf(),
                fl == self.spec_pairs().len(),
                p <= fl,
                fc@.len() == p,
                forall|q: int| 0 <= q < p ==> #[trigger] fc@[q] == self.spec_pairs()[q].1,
            decreases fl - p,
        {
            fc.push(self.token_counter.count_at(p));
            p = p + 1;
        }
        let mut tc: Vec<u64> = Vec::new();
        let mut p2: usize = 0;
        while p2 < tl
            invariant
                to_name.wf(),
                tl == to_name.spec_pairs().len(),
                p2 <= tl,
                tc@.len() == p2,
                forall|q: int| 0 <= q < p2 ==> #[trigger] tc@[q] == to_name.spec_pairs()[q].1,
            decreases tl - p2,
        {
            tc.push(to_name.token_counter.count_at(p2));
            p2 = p2 + 1;
        }
        proof {
            assert(fc@ =~= spec_counts_of(self.spec_pairs()));
            assert(tc@ =~= spec_counts_of(to_name.spec_pairs()));
            lemma_counts_sum(fc@, self.spec_pairs());
            assert(crate::score::queue_ok(queue@, fc@.len() as int, tc@.len() as int));
        }
        score_combination_queue(queue, &fc, &tc, self.norm_sq, to_name.norm_sq)
    }
}

} // verus!
