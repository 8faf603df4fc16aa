//! The inverse-document-frequency weight model: document frequencies are
//! counted over the reference corpus and turned into fixed-point weights
//! `ln N - ln df(t)`, with `ln N` for tokens never seen in the corpus.

use crate::error::MatchError;
use crate::fixed::{ln_fixed, spec_ln_fixed, LN_BOUND};
use crate::names::NameProcessed;
use crate::tokens::{
    lemma_seq_count_absent, lemma_seq_count_at, lemma_seq_count_nonneg, lemma_seq_count_pos,
    lemma_seq_has_exists, seq_count, seq_has, views_of, TokenCounter,
};
use vstd::prelude::*;

verus! {

/// A document that can list its distinct tokens, for document-frequency
/// counting.
pub trait TokenDocument {
    /// The document's token multiset is in a fit state to be listed.
    spec fn doc_wf(&self) -> bool;

    /// Does the document contain token `t`?
    spec fn spec_has_token(&self, t: Seq<char>) -> bool;

    /// One copy of each distinct token of the document.
    fn token_document(&self) -> (r: Vec<String>)
        requires
            self.doc_wf(),
        ensures
            views_of(r@).no_duplicates(),
            forall|t: Seq<char>| views_of(r@).contains(t) <==> self.spec_has_token(t),
    ;
}

impl<N> TokenDocument for NameProcessed<N> {
    open spec fn doc_wf(&self) -> bool {
        self.wf()
    }

    open spec fn spec_has_token(&self, t: Seq<char>) -> bool {
        self.token_counter.has_token(t)
    }

    fn token_document(&self) -> (r: Vec<String>) {
        self.token_counter.distinct_tokens()
    }
}

/// Document frequency of `t`: the number of documents that contain it.
pub open spec fn spec_df<T: TokenDocument>(docs: Seq<T>, t: Seq<char>) -> int
    decreases docs.len(),
{
    if docs.len() == 0 {
        0
    } else {
        spec_df(docs.drop_last(), t) + if docs.last().spec_has_token(t) {
            1int
        } else {
            0int
        }
    }
}

pub proof fn lemma_df_bounds<T: TokenDocument>(docs: Seq<T>, t: Seq<char>)
    ensures
        0 <= spec_df(docs, t) <= docs.len(),
    decreases docs.len(),
{
    if docs.len() > 0 {
        lemma_df_bounds(docs.drop_last(), t);
    }
}

/// The weight of a token with document frequency `df` in a corpus of
/// `num_docs` documents: `ln(num_docs) - ln(df)` in fixed point, with
/// `ln(num_docs)` for unseen tokens (`df == 0`) and a floor at zero.
pub open spec fn spec_idf_weight(num_docs: int, df: int) -> int {
    let ln_n = spec_ln_fixed(num_docs);
    let ln_df = if df >= 1 {
        spec_ln_fixed(df)
    } else {
        0
    };
    if ln_n >= ln_df {
        ln_n - ln_df
    } else {
        0
    }
}

/// The weighting model on a two-document corpus: a token appearing in
/// exactly one of the two documents weighs `ln 2`, and a token never seen
/// in the corpus weighs `ln 2` as well.
pub proof fn lemma_two_doc_weights()
    ensures
        spec_idf_weight(2, 1) == crate::fixed::LN2_FIXED,
        spec_idf_weight(2, 0) == crate::fixed::LN2_FIXED,
{
    crate::fixed::lemma_ln_fixed_one();
    crate::fixed::lemma_ln_fixed_two();
}

/// Inverse-document-frequency weights for a fixed reference corpus.
pub struct Idf {
    entries: Vec<(String, u64)>,
    weight_for_missing: u64,
}

impl Idf {
    /// The association sequence from token to stored weight.
    pub closed spec fn view_entries(&self) -> Seq<(Seq<char>, u64)> {
        self.entries@.map_values(|p: (String, u64)| (p.0@, p.1))
    }

    pub closed spec fn spec_missing(&self) -> int {
        self.weight_for_missing as int
    }

    pub open spec fn wf(&self) -> bool {
        &&& forall|i: int, j: int|
            0 <= i < j < self.view_entries().len()
                ==> #[trigger] self.view_entries()[i].0 != #[trigger] self.view_entries()[j].0
        &&& forall|i: int|
            0 <= i < self.view_entries().len() ==> (#[trigger] self.view_entries()[i]).1
                <= LN_BOUND
        &&& self.spec_missing() <= LN_BOUND
        &&& self.spec_missing() >= 0
    }

    /// The weight of token `t`.
    pub open spec fn spec_lookup(&self, t: Seq<char>) -> int {
        if seq_has(self.view_entries(), t) {
            seq_count(self.view_entries(), t)
        } else {
            self.spec_missing()
        }
    }

    /// Build the weight model from the reference corpus.  Fails exactly on
    /// an empty corpus.
    pub fn new<T: TokenDocument>(docs: &Vec<T>) -> (res: Result<Idf, MatchError>)
        requires
            forall|i: int| 0 <= i < docs@.len() ==> (#[trigger] docs@[i]).doc_wf(),
        ensures
            docs@.len() == 0 <==> res is Err,
            res is Err ==> res->Err_0 == MatchError::EmptyReferenceCorpus,
            res is Ok ==> res->Ok_0.wf(),
            res is Ok ==> forall|t: Seq<char>|
                #[trigger] res->Ok_0.spec_lookup(t) == spec_idf_weight(
                    docs@.len() as int,
                    spec_df(docs@, t),
                ),
    {
        let n = docs.len();
        if n == 0 {
            return Err(MatchError::EmptyReferenceCorpus);
        }
        // Count document frequencies.
        let mut df = TokenCounter::new();
        let mut i: usize = 0;
        proof {
            assert(docs@.take(0) =~= Seq::<T>::empty());
        }
        while i < n
            invariant
                df.wf(),
                i <= n,
                n == docs@.len(),
                forall|k: int| 0 <= k < docs@.len() ==> (#[trigger] docs@[k]).doc_wf(),
                forall|t: Seq<char>|
                    #[trigger] df.spec_count(t) == spec_df(docs@.take(i as int), t),
            decreases n - i,
        {
            let toks = docs[i].token_document();
            let m = toks.len();
            let mut j: usize = 0;
            proof {
                assert(views_of(toks@.take(0)) =~= Seq::<Seq<char>>::empty());
                assert(forall|t: Seq<char>| !views_of(toks@.take(0)).contains(t));
            }
            while j < m
                invariant
                    df.wf(),
                    j <= m,
                    m == toks@.len(),
                    i < n,
                    n == docs@.len(),
                    views_of(toks@).no_duplicates(),
                    forall|t: Seq<char>|
                        views_of(toks@).contains(t) <==> (#[trigger] docs@[i as int].spec_has_token(
                            t,
                        )),
                    forall|t: Seq<char>|
                        #[trigger] df.spec_count(t) == spec_df(docs@.take(i as int), t) + if views_of(
                            toks@.take(j as int),
                        ).contains(t) {
                            1int
                        } else {
                            0int
                        },
                decreases m - j,
            {
                let ghost tv = toks@[j as int]@;
                proof {
                    assert(views_of(toks@)[j as int] == tv);
                    assert(views_of(toks@.take(j as int)) =~= views_of(toks@).take(j as int));
                    // the current token was not seen earlier in this document
                    if views_of(toks@.take(j as int)).contains(tv) {
                        let p = choose|p: int|
                            0 <= p < j && views_of(toks@).take(j as int)[p] == tv;
                        assert(views_of(toks@)[p] == views_of(toks@)[j as int]);
                        assert(false);
                    }
                    lemma_df_bounds(docs@.take(i as int), tv);
                }
                df.increment(&toks[j]);
                proof {
                    assert(views_of(toks@.take(j as int + 1)) =~= views_of(toks@).take(
                        j as int + 1,
                    ));
                    assert forall|t: Seq<char>|
                        #[trigger] df.spec_count(t) == spec_df(docs@.take(i as int), t)
                            + if views_of(toks@.take(j as int + 1)).contains(t) {
                            1int
                        } else {
                            0int
                        } by {
                        let pre = views_of(toks@).take(j as int);
                        let post = views_of(toks@).take(j as int + 1);
                        assert(post =~= pre.push(tv));
                        if t == tv {
                            assert(post[j as int] == tv);
                            assert(post.contains(t));
                        } else {
                            assert(pre.contains(t) <==> post.contains(t)) by {
                                if post.contains(t) {
                                    let p = choose|p: int| 0 <= p < post.len() && post[p] == t;
                                    assert(p < pre.len());
                                    assert(pre[p] == t);
                                }
                                if pre.contains(t) {
                                    let p = choose|p: int| 0 <= p < pre.len() && pre[p] == t;
                                    assert(post[p] == t);
                                }
                            }
                        }
                    }
                }
                j = j + 1;
            }
            proof {
                assert(views_of(toks@.take(m as int)) =~= views_of(toks@));
                let pre = docs@.take(i as int);
                let post = docs@.take(i as int + 1);
                assert(post.drop_last() =~= pre);
                assert(post.last() == docs@[i as int]);
                assert forall|t: Seq<char>|
                    #[trigger] df.spec_count(t) == spec_df(post, t) by {
                    assert(spec_df(post, t) == spec_df(pre, t) + if docs@[i as int].spec_has_token(
                        t,
                    ) {
                        1int
                    } else {
                        0int
                    });
                }
            }
            i = i + 1;
        }
        proof {
            assert(docs@.take(n as int) =~= docs@);
        }

        // Turn document frequencies into weights.
        let num: u64 = n as u64;
        let ln_n = ln_fixed(num);
        let k = df.num_tokens();
        let mut entries: Vec<(String, u64)> = Vec::new();
        let mut idx: usize = 0;
        while idx < k
            invariant
                df.wf(),
                idx <= k,
                k == df.view_entries().len(),
                num as int == docs@.len(),
                num >= 1,
                ln_n == spec_ln_fixed(num as int),
                ln_n <= LN_BOUND,
                entries@.len() == idx,
                forall|p: int|
                    0 <= p < idx ==> (#[trigger] entries@[p]).0@ == df.view_entries()[p].0
                        && entries@[p].1 as int == spec_idf_weight(
                        num as int,
                        df.view_entries()[p].1 as int,
                    ) && entries@[p].1 <= LN_BOUND,
            decreases k - idx,
        {
            let dfc = df.count_at(idx);
            let ld = ln_fixed(dfc);
            let w: u64 = if ln_n >= ld {
                ln_n - ld
            } else {
                0
            };
            let tok = df.token_at(idx).clone();
            entries.push((tok, w));
            idx = idx + 1;
        }

        let idf = Idf { entries, weight_for_missing: ln_n };
        proof {
            let dfs = df.view_entries();
            let ws = idf.view_entries();
            assert(ws.len() == dfs.len());
            assert(forall|p: int|
                0 <= p < ws.len() ==> (#[trigger] ws[p]).0 == dfs[p].0 && ws[p].1 as int
                    == spec_idf_weight(num as int, dfs[p].1 as int) && ws[p].1 <= LN_BOUND);
            assert forall|t: Seq<char>|
                #[trigger] idf.spec_lookup(t) == spec_idf_weight(
                    docs@.len() as int,
                    spec_df(docs@, t),
                ) by {
                lemma_seq_has_exists(ws, t);
                lemma_seq_has_exists(dfs, t);
                lemma_seq_count_pos(dfs, t);
                if seq_has(ws, t) {
                    let p = choose|p: int| 0 <= p < ws.len() && ws[p].0 == t;
                    assert(dfs[p].0 == t);
                    lemma_seq_count_at(ws, p);
                    lemma_seq_count_at(dfs, p);
                    assert(df.spec_count(t) == dfs[p].1);
                } else {
                    if seq_has(dfs, t) {
                        let p = choose|p: int| 0 <= p < dfs.len() && dfs[p].0 == t;
                        assert(ws[p].0 == t);
                        assert(false);
                    }
                    lemma_seq_count_nonneg(dfs, t);
                    assert(df.spec_count(t) == 0);
                    assert(spec_df(docs@, t) == 0);
                }
            }
            // well-formedness: key distinctness carries over from `df`
            assert forall|i2: int, j2: int|
                0 <= i2 < j2 < ws.len() implies #[trigger] ws[i2].0 != #[trigger] ws[j2].0 by {
                assert(dfs[i2].0 != dfs[j2].0);
            }
        }
        Ok(idf)
    }

    /// The weight of `token`: its corpus weight, or the missing-token
    /// weight if the reference corpus never saw it.
    pub fn lookup(&self, token: &String) -> (w: u64)
        requires
            self.wf(),
        ensures
            w as int == self.spec_lookup(token@),
            w <= LN_BOUND,
    {
        let n = self.entries.len();
        let mut i: usize = 0;
        while i < n
            invariant
                self.wf(),
                n == self.view_entries().len(),
                i <= n,
                forall|j: int| 0 <= j < i ==> (#[trigger] self.view_entries()[j]).0 != token@,
            decreases n - i,
        {
            if self.entries[i].0 == *token {
                proof {
                    lemma_seq_count_at(self.view_entries(), i as int);
                    lemma_seq_has_exists(self.view_entries(), token@);
                    assert(self.view_entries()[i as int].0 == token@);
                }
                return self.entries[i].1;
            }
            i = i + 1;
        }
        proof {
            lemma_seq_has_exists(self.view_entries(), token@);
            if seq_has(self.view_entries(), token@) {
                let p = choose|p: int|
                    0 <= p < self.view_entries().len() && self.view_entries()[p].0 == token@;
                assert(false);
            }
        }
        self.weight_for_missing
    }
}

} // verus!
