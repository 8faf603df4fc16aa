//! Token multisets: each record's tokens with their multiplicities.
//!
//! Stored as an association list from token to a positive count, keyed by
//! the token's character sequence, with first-occurrence order kept.

use vstd::prelude::*;

verus! {

/// The character sequences of a sequence of strings.
pub open spec fn views_of(ts: Seq<String>) -> Seq<Seq<char>> {
    ts.map_values(|s: String| s@)
}

/// Number of occurrences of `t` in `ts`.
pub open spec fn seq_occ(ts: Seq<Seq<char>>, t: Seq<char>) -> int
    decreases ts.len(),
{
    if ts.len() == 0 {
        0
    } else {
        seq_occ(ts.drop_last(), t) + if ts.last() == t {
            1int
        } else {
            0int
        }
    }
}

pub proof fn lemma_seq_occ_pos_contains(ts: Seq<Seq<char>>, t: Seq<char>)
    requires
        seq_occ(ts, t) > 0,
    ensures
        exists|j: int| 0 <= j < ts.len() && ts[j] == t,
    decreases ts.len(),
{
    if ts.len() > 0 {
        if ts.last() == t {
            assert(ts[ts.len() - 1] == t);
        } else {
            lemma_seq_occ_pos_contains(ts.drop_last(), t);
            let j = choose|j: int| 0 <= j < ts.drop_last().len() && ts.drop_last()[j] == t;
            assert(ts[j] == t);
        }
    }
}

pub proof fn lemma_seq_occ_nonneg(ts: Seq<Seq<char>>, t: Seq<char>)
    ensures
        seq_occ(ts, t) >= 0,
    decreases ts.len(),
{
    if ts.len() > 0 {
        lemma_seq_occ_nonneg(ts.drop_last(), t);
    }
}

/// Count associated with `t` in an association sequence (0 when absent).
pub open spec fn seq_count(s: Seq<(Seq<char>, u64)>, t: Seq<char>) -> int
    decreases s.len(),
{
    if s.len() == 0 {
        0
    } else if s.last().0 == t {
        s.last().1 as int
    } else {
        seq_count(s.drop_last(), t)
    }
}

/// Is some entry of the association sequence keyed by `t`?
pub open spec fn seq_has(s: Seq<(Seq<char>, u64)>, t: Seq<char>) -> bool
    decreases s.len(),
{
    if s.len() == 0 {
        false
    } else if s.last().0 == t {
        true
    } else {
        seq_has(s.drop_last(), t)
    }
}

pub proof fn lemma_seq_has_exists(s: Seq<(Seq<char>, u64)>, t: Seq<char>)
    ensures
        seq_has(s, t) <==> exists|i: int| 0 <= i < s.len() && s[i].0 == t,
    decreases s.len(),
{
    if s.len() > 0 {
        lemma_seq_has_exists(s.drop_last(), t);
        assert(forall|i: int| 0 <= i < s.len() - 1 ==> s.drop_last()[i] == s[i]);
        if s.last().0 == t {
            assert(s[s.len() - 1].0 == t);
        } else if seq_has(s.drop_last(), t) {
            let i = choose|i: int| 0 <= i < s.drop_last().len() && s.drop_last()[i].0 == t;
            assert(s[i].0 == t);
        }
    }
}

/// Sum of all counts in an association sequence.
pub open spec fn seq_total(s: Seq<(Seq<char>, u64)>) -> int
    decreases s.len(),
{
    if s.len() == 0 {
        0
    } else {
        seq_total(s.drop_last()) + s.last().1
    }
}

pub proof fn lemma_seq_count_nonneg(s: Seq<(Seq<char>, u64)>, t: Seq<char>)
    ensures
        seq_count(s, t) >= 0,
    decreases s.len(),
{
    if s.len() > 0 {
        lemma_seq_count_nonneg(s.drop_last(), t);
    }
}

pub proof fn lemma_seq_count_absent(s: Seq<(Seq<char>, u64)>, t: Seq<char>)
    requires
        forall|i: int| 0 <= i < s.len() ==> s[i].0 != t,
    ensures
        seq_count(s, t) == 0,
    decreases s.len(),
{
    if s.len() > 0 {
        assert(forall|i: int| 0 <= i < s.drop_last().len() ==> s.drop_last()[i] == s[i]);
        lemma_seq_count_absent(s.drop_last(), t);
    }
}

pub proof fn lemma_seq_count_at(s: Seq<(Seq<char>, u64)>, i: int)
    requires
        0 <= i < s.len(),
        forall|p: int, q: int| 0 <= p < q < s.len() ==> s[p].0 != s[q].0,
    ensures
        seq_count(s, s[i].0) == s[i].1,
    decreases s.len(),
{
    if i == s.len() - 1 {
        assert(s.last() == s[i]);
    } else {
        assert(s.last().0 != s[i].0);
        assert(forall|p: int, q: int|
            0 <= p < q < s.drop_last().len() ==> s.drop_last()[p].0 != s.drop_last()[q].0);
        assert(s.drop_last()[i] == s[i]);
        lemma_seq_count_at(s.drop_last(), i);
    }
}

pub proof fn lemma_seq_count_le_total(s: Seq<(Seq<char>, u64)>, t: Seq<char>)
    ensures
        seq_count(s, t) <= seq_total(s),
    decreases s.len(),
{
    lemma_seq_count_nonneg(s, t);
    if s.len() > 0 {
        lemma_seq_count_le_total(s.drop_last(), t);
        lemma_seq_count_nonneg(s.drop_last(), t);
        lemma_seq_total_nonneg(s.drop_last());
    }
}

/// With distinct keys and positive counts, a positive count is the same as
/// the presence of an entry.
pub proof fn lemma_seq_count_pos(s: Seq<(Seq<char>, u64)>, t: Seq<char>)
    requires
        forall|p: int, q: int| 0 <= p < q < s.len() ==> s[p].0 != s[q].0,
        forall|i: int| 0 <= i < s.len() ==> (#[trigger] s[i]).1 >= 1,
    ensures
        seq_count(s, t) > 0 <==> seq_has(s, t),
{
    lemma_seq_has_exists(s, t);
    if seq_has(s, t) {
        let i = choose|i: int| 0 <= i < s.len() && s[i].0 == t;
        lemma_seq_count_at(s, i);
    } else {
        lemma_seq_count_absent(s, t);
    }
}

/// A prefix's total never exceeds the whole total.
pub proof fn lemma_seq_total_take_le(s: Seq<(Seq<char>, u64)>, k: int)
    requires
        0 <= k <= s.len(),
    ensures
        0 <= seq_total(s.take(k)) <= seq_total(s),
    decreases s.len() - k,
{
    if k == s.len() {
        assert(s.take(k) =~= s);
        lemma_seq_total_nonneg(s);
    } else {
        lemma_seq_total_take_le(s, k + 1);
        lemma_seq_total_nonneg(s.take(k));
        assert(s.take(k + 1).drop_last() =~= s.take(k));
        assert(s.take(k + 1).last() == s[k]);
        assert(seq_total(s.take(k + 1)) == seq_total(s.take(k)) + s[k].1);
    }
}

pub proof fn lemma_seq_total_nonneg(s: Seq<(Seq<char>, u64)>)
    ensures
        seq_total(s) >= 0,
    decreases s.len(),
{
    if s.len() > 0 {
        lemma_seq_total_nonneg(s.drop_last());
    }
}

/// One record's tokens with multiplicities.
pub struct TokenCounter {
    entries: Vec<(String, u64)>,
}

impl TokenCounter {
    /// The association sequence this counter stands for.
    pub closed spec fn view_entries(&self) -> Seq<(Seq<char>, u64)> {
        self.entries@.map_values(|p: (String, u64)| (p.0@, p.1))
    }

    /// Keys are distinct and every stored count is positive.
    pub open spec fn wf(&self) -> bool {
        &&& forall|i: int, j: int|
            0 <= i < j < self.view_entries().len()
                ==> #[trigger] self.view_entries()[i].0 != #[trigger] self.view_entries()[j].0
        &&& forall|i: int|
            0 <= i < self.view_entries().len() ==> (#[trigger] self.view_entries()[i]).1 >= 1
    }

    /// Multiplicity of token `t` (0 when absent).
    pub open spec fn spec_count(&self, t: Seq<char>) -> int {
        seq_count(self.view_entries(), t)
    }

    /// Is `t` present with positive multiplicity?
    pub open spec fn has_token(&self, t: Seq<char>) -> bool {
        self.spec_count(t) > 0
    }

    /// Sum of all multiplicities.
    pub open spec fn total(&self) -> int {
        seq_total(self.view_entries())
    }

    pub fn new() -> (r: TokenCounter)
        ensures
            r.wf(),
            r.view_entries() == Seq::<(Seq<char>, u64)>::empty(),
            r.total() == 0,
    {
        let r = TokenCounter { entries: Vec::new() };
        proof {
            assert(r.view_entries() =~= Seq::<(Seq<char>, u64)>::empty());
        }
        r
    }

    /// Number of distinct tokens.
    pub fn num_tokens(&self) -> (n: usize)
        ensures
            n == self.view_entries().len(),
    {
        self.entries.len()
    }

    pub fn token_at(&self, i: usize) -> (t: &String)
        requires
            i < self.view_entries().len(),
        ensures
            t@ == self.view_entries()[i as int].0,
    {
        &self.entries[i].0
    }

    pub fn count_at(&self, i: usize) -> (c: u64)
        requires
            i < self.view_entries().len(),
        ensures
            c == self.view_entries()[i as int].1,
    {
        self.entries[i].1
    }

    /// Multiplicity of token `t` (0 when absent).
    pub fn get(&self, t: &String) -> (c: u64)
        requires
            self.wf(),
        ensures
            c as int == self.spec_count(t@),
    {
        let n = self.entries.len();
        let mut i: usize = 0;
        while i < n
            invariant
                self.wf(),
                n == self.view_entries().len(),
                i <= n,
                forall|j: int| 0 <= j < i ==> (#[trigger] self.view_entries()[j]).0 != t@,
            decreases n - i,
        {
            if self.entries[i].0 == *t {
                proof {
                    lemma_seq_count_at(self.view_entries(), i as int);
                }
                return self.entries[i].1;
            }
            i = i + 1;
        }
        proof {
            lemma_seq_count_absent(self.view_entries(), t@);
        }
        0
    }

    /// Add one occurrence of `t`.
    pub fn increment(&mut self, t: &String)
        requires
            old(self).wf(),
            old(self).spec_count(t@) < u64::MAX,
        ensures
            final(self).wf(),
            final(self).spec_count(t@) == old(self).spec_count(t@) + 1,
            forall|u: Seq<char>|
                u != t@ ==> final(self).spec_count(u) == old(self).spec_count(u),
            final(self).total() == old(self).total() + 1,
    {
        let n = self.entries.len();
        let mut i: usize = 0;
        while i < n
            invariant
                self.wf(),
                *self == *old(self),
                old(self).spec_count(t@) < u64::MAX,
                n == self.view_entries().len(),
                i <= n,
                forall|j: int| 0 <= j < i ==> (#[trigger] self.view_entries()[j]).0 != t@,
            decreases n - i,
        {
            if self.entries[i].0 == *t {
                proof {
                    lemma_seq_count_at(self.view_entries(), i as int);
                }
                let c = self.entries[i].1;
                self.entries[i].1 = c + 1;
                proof {
                    let olds = old(self).view_entries();
                    let news = self.view_entries();
                    assert(news =~= olds.update(i as int, (olds[i as int].0, (c + 1) as u64)));
                    lemma_assoc_update_count(olds, i as int, (c + 1) as u64, t@);
                    lemma_assoc_update_total(olds, i as int, (c + 1) as u64);
                    assert forall|u: Seq<char>| u != t@ implies seq_count(news, u) == seq_count(
                        olds,
                        u,
                    ) by {
                        lemma_assoc_update_count(olds, i as int, (c + 1) as u64, u);
                    }
                }
                return ;
            }
            i = i + 1;
        }
        self.entries.push((t.clone(), 1));
        proof {
            let olds = old(self).view_entries();
            let news = self.view_entries();
            assert(news =~= olds.push((t@, 1u64)));
            lemma_seq_count_absent(olds, t@);
            assert(news.drop_last() =~= olds);
            assert(forall|u: Seq<char>| u != t@ ==> seq_count(news, u) == seq_count(olds, u));
        }
    }

    /// The distinct tokens, in stored order.
    pub open spec fn keys(&self) -> Seq<Seq<char>> {
        self.view_entries().map_values(|p: (Seq<char>, u64)| p.0)
    }

    /// One copy of each distinct token, in stored order.
    pub fn distinct_tokens(&self) -> (r: Vec<String>)
        requires
            self.wf(),
        ensures
            views_of(r@) == self.keys(),
            views_of(r@).no_duplicates(),
            forall|t: Seq<char>| views_of(r@).contains(t) <==> self.has_token(t),
    {
        let n = self.entries.len();
        let mut r: Vec<String> = Vec::new();
        let mut i: usize = 0;
        proof {
            assert(views_of(r@) =~= self.keys().take(0));
        }
        while i < n
            invariant
                self.wf(),
                n == self.view_entries().len(),
                i <= n,
                r@.len() == i,
                views_of(r@) =~= self.keys().take(i as int),
            decreases n - i,
        {
            let tok = self.entries[i].0.clone();
            r.push(tok);
            proof {
                assert(views_of(r@) =~= self.keys().take(i as int + 1));
            }
            i = i + 1;
        }
        proof {
            assert(views_of(r@) =~= self.keys());
            assert(forall|p: int, q: int|
                0 <= p < q < self.keys().len() ==> self.keys()[p] != self.keys()[q]);
            lemma_seq_has_exists(self.view_entries(), Seq::<char>::empty());
            assert forall|t: Seq<char>| views_of(r@).contains(t) <==> self.has_token(t) by {
                lemma_seq_has_exists(self.view_entries(), t);
                lemma_seq_count_pos(self.view_entries(), t);
                if views_of(r@).contains(t) {
                    let i = choose|i: int| 0 <= i < self.keys().len() && self.keys()[i] == t;
                    assert(self.view_entries()[i].0 == t);
                }
                if self.has_token(t) {
                    let i = choose|i: int|
                        0 <= i < self.view_entries().len() && self.view_entries()[i].0 == t;
                    assert(self.keys()[i] == t);
                    assert(views_of(r@)[i] == t);
                }
            }
        }
        r
    }

    /// Build the multiset of a record's token list.
    pub fn from_tokens(tokens: &Vec<String>) -> (r: TokenCounter)
        ensures
            r.wf(),
            forall|t: Seq<char>| r.spec_count(t) == seq_occ(views_of(tokens@), t),
            r.total() == tokens@.len(),
    {
        let mut r = TokenCounter::new();
        let n = tokens.len();
        let mut i: usize = 0;
        proof {
            assert(views_of(tokens@.take(0)) =~= Seq::<Seq<char>>::empty());
        }
        while i < n
            invariant
                r.wf(),
                n == tokens@.len(),
                i <= n,
                forall|t: Seq<char>|
                    #[trigger] r.spec_count(t) == seq_occ(views_of(tokens@.take(i as int)), t),
                r.total() == i,
            decreases n - i,
        {
            proof {
                lemma_seq_count_le_total(r.view_entries(), tokens@[i as int]@);
            }
            r.increment(&tokens[i]);
            proof {
                let pre = views_of(tokens@.take(i as int));
                let post = views_of(tokens@.take(i as int + 1));
                assert(post =~= pre.push(tokens@[i as int]@));
                assert(post.drop_last() =~= pre);
                assert(forall|t: Seq<char>| seq_occ(post, t) == seq_occ(pre, t) + if tokens@[i as int]@ == t { 1int } else { 0int });
            }
            i = i + 1;
        }
        proof {
            assert(tokens@.take(n as int) =~= tokens@);
        }
        r
    }
}

pub proof fn lemma_assoc_update_count(s: Seq<(Seq<char>, u64)>, i: int, c: u64, t: Seq<char>)
    requires
        0 <= i < s.len(),
        forall|p: int, q: int| 0 <= p < q < s.len() ==> s[p].0 != s[q].0,
    ensures
        s[i].0 == t ==> seq_count(s.update(i, (s[i].0, c)), t) == c,
        s[i].0 != t ==> seq_count(s.update(i, (s[i].0, c)), t) == seq_count(s, t),
    decreases s.len(),
{
    let u = s.update(i, (s[i].0, c));
    if i == s.len() - 1 {
        assert(u.last() == (s[i].0, c));
        assert(u.drop_last() =~= s.drop_last());
    } else {
        assert(u.last() == s.last());
        assert(u.drop_last() =~= s.drop_last().update(i, (s[i].0, c)));
        assert(forall|p: int, q: int|
            0 <= p < q < s.drop_last().len() ==> s.drop_last()[p].0 != s.drop_last()[q].0);
        assert(s.drop_last()[i] == s[i]);
        lemma_assoc_update_count(s.drop_last(), i, c, t);
        if s.last().0 == t {
            assert(s[i].0 != t);
        }
    }
}

pub proof fn lemma_assoc_update_total(s: Seq<(Seq<char>, u64)>, i: int, c: u64)
    requires
        0 <= i < s.len(),
    ensures
        seq_total(s.update(i, (s[i].0, c))) == seq_total(s) - s[i].1 + c,
    decreases s.len(),
{
    let u = s.update(i, (s[i].0, c));
    if i == s.len() - 1 {
        assert(u.last() == (s[i].0, c));
        assert(u.drop_last() =~= s.drop_last());
    } else {
        assert(u.last() == s.last());
        assert(u.drop_last() =~= s.drop_last().update(i, (s[i].0, c)));
        assert(s.drop_last()[i] == s[i]);
        lemma_assoc_update_total(s.drop_last(), i, c);
    }
}

} // verus!
