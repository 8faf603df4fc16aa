//! The bounded top-K-with-ties selector.
//!
//! Elements are `(score, tag)` pairs ordered lexicographically, so equal
//! scores resolve deterministically by tag (callers tag candidates in push
//! order).  A bounded double-ended heap holds the K best elements; a second
//! heap holds elements tied with the current cutoff under the selector's
//! tie rule; whenever the cutoff moves, ties that fell out of tolerance are
//! dropped from the bottom up to the first still-tied element.
//!
//! The heaps themselves are `min_max_heap::MinMaxHeap` values, trusted
//! through the contracts below; everything above them is verified.

use vstd::multiset::Multiset;
use vstd::prelude::*;

verus! {

#[verifier::external_type_specification]
#[verifier::external_body]
#[verifier::reject_recursive_types(T)]
pub struct ExMinMaxHeap<T>(min_max_heap::MinMaxHeap<T>);

/// What a heap holds, as a multiset of `(score, tag)` pairs.
pub uninterp spec fn mmh_contents(h: min_max_heap::MinMaxHeap<(u64, u64)>) -> Multiset<(u64, u64)>;

/// Lexicographic order on `(score, tag)` pairs, as std orders tuples.
pub open spec fn pair_le(a: (u64, u64), b: (u64, u64)) -> bool {
    a.0 < b.0 || (a.0 == b.0 && a.1 <= b.1)
}

/// Strict lexicographic order on `(score, tag)` pairs.
pub open spec fn pair_lt(a: (u64, u64), b: (u64, u64)) -> bool {
    a.0 < b.0 || (a.0 == b.0 && a.1 < b.1)
}

/// `m` is a lower bound of the multiset `s`.
pub open spec fn is_lower_bound(m: (u64, u64), s: Multiset<(u64, u64)>) -> bool {
    forall|x: (u64, u64)| s.contains(x) ==> pair_le(m, x)
}

/// The least element of a non-empty multiset of pairs.
pub open spec fn ms_min(s: Multiset<(u64, u64)>) -> (u64, u64) {
    choose|m: (u64, u64)| s.contains(m) && is_lower_bound(m, s)
}

/// Relies on MinMaxHeap::new: creates an empty heap.
#[verifier::external_body]
fn mmh_new() -> (r: min_max_heap::MinMaxHeap<(u64, u64)>)
    ensures
        mmh_contents(r) == Multiset::<(u64, u64)>::empty(),
{
    min_max_heap::MinMaxHeap::new()
}

/// Relies on MinMaxHeap::with_capacity: creates an empty heap (the
/// capacity is an allocation hint only).
#[verifier::external_body]
fn mmh_with_capacity(len: usize) -> (r: min_max_heap::MinMaxHeap<(u64, u64)>)
    ensures
        mmh_contents(r) == Multiset::<(u64, u64)>::empty(),
{
    min_max_heap::MinMaxHeap::with_capacity(len)
}

/// Relies on MinMaxHeap::len: the number of stored elements.
#[verifier::external_body]
fn mmh_len(h: &min_max_heap::MinMaxHeap<(u64, u64)>) -> (r: usize)
    ensures
        r == mmh_contents(*h).len(),
{
    h.len()
}

/// Relies on MinMaxHeap::push: adds one element.
#[verifier::external_body]
fn mmh_push(h: &mut min_max_heap::MinMaxHeap<(u64, u64)>, element: (u64, u64))
    ensures
        mmh_contents(*final(h)) == mmh_contents(*old(h)).insert(element),
{
    h.push(element)
}

/// Relies on MinMaxHeap::peek_min: the least element, if any.
#[verifier::external_body]
fn mmh_peek_min(h: &min_max_heap::MinMaxHeap<(u64, u64)>) -> (r: Option<(u64, u64)>)
    ensures
        match r {
            None => mmh_contents(*h).len() == 0,
            Some(m) => mmh_contents(*h).contains(m) && is_lower_bound(m, mmh_contents(*h)),
        },
{
    h.peek_min().copied()
}

/// Relies on MinMaxHeap::pop_min: removes and returns the least element,
/// if any.
#[verifier::external_body]
fn mmh_pop_min(h: &mut min_max_heap::MinMaxHeap<(u64, u64)>) -> (r: Option<(u64, u64)>)
    ensures
        match r {
            None => {
                &&& mmh_contents(*old(h)).len() == 0
                &&& mmh_contents(*final(h)) == mmh_contents(*old(h))
            },
            Some(m) => {
                &&& mmh_contents(*old(h)).contains(m)
                &&& is_lower_bound(m, mmh_contents(*old(h)))
                &&& mmh_contents(*final(h)) == mmh_contents(*old(h)).remove(m)
            },
        },
{
    h.pop_min()
}

/// Relies on MinMaxHeap::into_vec_desc: all elements, sorted descending.
#[verifier::external_body]
fn mmh_into_vec_desc(h: min_max_heap::MinMaxHeap<(u64, u64)>) -> (r: Vec<(u64, u64)>)
    ensures
        r@.to_multiset() == mmh_contents(h),
        r@.len() == mmh_contents(h).len(),
        forall|i: int, j: int| 0 <= i <= j < r@.len() ==> pair_le(#[trigger] r@[j], #[trigger] r@[i]),
{
    h.into_vec_desc()
}

/// When near-misses count as tied with the cutoff.
#[derive(Clone, Copy, PartialEq, Eq, Structural, Debug)]
pub enum TieRule {
    /// Strict top-K: nothing is ever tied.
    NoTies,
    /// Tied when the scores differ by at most the tolerance.
    Within(u64),
}

/// Are two scores tied under the rule?
pub open spec fn spec_tied(rule: TieRule, a: u64, b: u64) -> bool {
    match rule {
        TieRule::NoTies => false,
        TieRule::Within(tol) => a - b <= tol && b - a <= tol,
    }
}

fn tied(rule: TieRule, a: u64, b: u64) -> (r: bool)
    ensures
        r == spec_tied(rule, a, b),
{
    match rule {
        TieRule::NoTies => false,
        TieRule::Within(tol) => {
            let d = if a <= b {
                b - a
            } else {
                a - b
            };
            d <= tol
        },
    }
}

/// Drop elements from the bottom of the tie heap while the least one is no
/// longer tied with the cutoff `m`, stopping at the first tied element.
pub open spec fn spec_cleanup(
    ties: Multiset<(u64, u64)>,
    m: (u64, u64),
    rule: TieRule,
) -> Multiset<(u64, u64)>
    decreases ties.len(),
{
    if ties.len() == 0 {
        ties
    } else {
        let tm = ms_min(ties);
        if !(ties.contains(tm) && is_lower_bound(tm, ties)) {
            ties
        } else if spec_tied(rule, m.0, tm.0) {
            ties
        } else {
            spec_cleanup(ties.remove(tm), m, rule)
        }
    }
}

/// One step of the selector: insert into the main heap while it is below
/// capacity; afterwards, a new element either displaces the current cutoff
/// into the tie heap, or joins the tie heap itself if it ties the cutoff,
/// or is dropped.
pub open spec fn spec_push(
    main: Multiset<(u64, u64)>,
    ties: Multiset<(u64, u64)>,
    size: int,
    rule: TieRule,
    e: (u64, u64),
) -> (Multiset<(u64, u64)>, Multiset<(u64, u64)>) {
    if main.len() < size {
        (main.insert(e), ties)
    } else {
        let m = ms_min(main);
        if !(main.contains(m) && is_lower_bound(m, main)) {
            (main, ties)
        } else if pair_lt(m, e) {
            let main2 = main.insert(e).remove(m);
            (main2, spec_cleanup(ties.insert(m), ms_min(main2), rule))
        } else if spec_tied(rule, m.0, e.0) {
            (main, spec_cleanup(ties.insert(e), m, rule))
        } else {
            (main, ties)
        }
    }
}

/// Cleanup only ever removes elements.
pub proof fn lemma_cleanup_subset(ties: Multiset<(u64, u64)>, m: (u64, u64), rule: TieRule)
    ensures
        forall|x: (u64, u64)|
            spec_cleanup(ties, m, rule).contains(x) ==> #[trigger] ties.contains(x),
    decreases ties.len(),
{
    if ties.len() > 0 {
        let tm = ms_min(ties);
        if ties.contains(tm) && is_lower_bound(tm, ties) && !spec_tied(rule, m.0, tm.0) {
            lemma_cleanup_subset(ties.remove(tm), m, rule);
            assert forall|x: (u64, u64)|
                spec_cleanup(ties, m, rule).contains(x) implies #[trigger] ties.contains(x) by {
                assert(spec_cleanup(ties.remove(tm), m, rule).contains(x));
                assert(ties.remove(tm).contains(x));
            }
        }
    }
}

/// Every element after a push was already present or is the pushed one.
pub proof fn lemma_push_elements(
    main: Multiset<(u64, u64)>,
    ties: Multiset<(u64, u64)>,
    size: int,
    rule: TieRule,
    e: (u64, u64),
)
    ensures
        forall|x: (u64, u64)|
            spec_push(main, ties, size, rule, e).0.contains(x) || spec_push(
                main,
                ties,
                size,
                rule,
                e,
            ).1.contains(x) ==> #[trigger] main.contains(x) || ties.contains(x) || x == e,
{
    let r = spec_push(main, ties, size, rule, e);
    if main.len() < size {
    } else {
        let m = ms_min(main);
        if main.contains(m) && is_lower_bound(m, main) {
            if pair_lt(m, e) {
                let main2 = main.insert(e).remove(m);
                lemma_cleanup_subset(ties.insert(m), ms_min(main2), rule);
                assert forall|x: (u64, u64)| r.0.contains(x) || r.1.contains(x) implies
                    main.contains(x) || ties.contains(x) || x == e by {
                    if r.1.contains(x) {
                        assert(ties.insert(m).contains(x));
                        if x != m {
                            assert(ties.contains(x));
                        } else {
                            assert(main.contains(x));
                        }
                    } else {
                        assert(main2.contains(x));
                        if x != e {
                            assert(main.insert(e).contains(x));
                            assert(main.contains(x));
                        }
                    }
                }
            } else if spec_tied(rule, m.0, e.0) {
                lemma_cleanup_subset(ties.insert(e), m, rule);
                assert forall|x: (u64, u64)| r.0.contains(x) || r.1.contains(x) implies
                    main.contains(x) || ties.contains(x) || x == e by {
                    if r.1.contains(x) {
                        assert(ties.insert(e).contains(x));
                        if x != e {
                            assert(ties.contains(x));
                        }
                    }
                }
            }
        }
    }
}

/// A bounded top-K selector that also keeps elements tied with the cutoff.
pub struct MinMaxTieHeap {
    min_max_heap: min_max_heap::MinMaxHeap<(u64, u64)>,
    size: usize,
    ties: min_max_heap::MinMaxHeap<(u64, u64)>,
    are_tied: TieRule,
}

impl MinMaxTieHeap {
    pub closed spec fn spec_main(&self) -> Multiset<(u64, u64)> {
        mmh_contents(self.min_max_heap)
    }

    pub closed spec fn spec_ties(&self) -> Multiset<(u64, u64)> {
        mmh_contents(self.ties)
    }

    pub closed spec fn spec_size(&self) -> int {
        self.size as int
    }

    pub closed spec fn spec_rule(&self) -> TieRule {
        self.are_tied
    }

    pub open spec fn wf(&self) -> bool {
        &&& self.spec_size() >= 1
        &&& self.spec_main().len() <= self.spec_size()
    }

    /// An empty selector retaining the `size` best elements plus ties.
    pub fn new(size: usize, are_tied: TieRule) -> (r: MinMaxTieHeap)
        requires
            size >= 1,
        ensures
            r.wf(),
            r.spec_main() == Multiset::<(u64, u64)>::empty(),
            r.spec_ties() == Multiset::<(u64, u64)>::empty(),
            r.spec_size() == size,
            r.spec_rule() == are_tied,
    {
        MinMaxTieHeap {
            min_max_heap: mmh_with_capacity(size),
            ties: mmh_new(),
            size,
            are_tied,
        }
    }

    /// Offer one element to the selector.
    pub fn push(&mut self, element: (u64, u64))
        requires
            old(self).wf(),
        ensures
            final(self).wf(),
            (final(self).spec_main(), final(self).spec_ties()) == spec_push(
                old(self).spec_main(),
                old(self).spec_ties(),
                old(self).spec_size(),
                old(self).spec_rule(),
                element,
            ),
            final(self).spec_size() == old(self).spec_size(),
            final(self).spec_rule() == old(self).spec_rule(),
    {
        let n = mmh_len(&self.min_max_heap);
        if n < self.size {
            mmh_push(&mut self.min_max_heap, element);
            return ;
        }
        let m = match mmh_peek_min(&self.min_max_heap) {
            Some(m) => m,
            None => {
                proof {
                    assert(false);
                }
                return ;
            },
        };
        proof {
            // the witnessed minimum is the spec-level minimum
            let mm = ms_min(self.spec_main());
            assert(self.spec_main().contains(mm) && is_lower_bound(mm, self.spec_main()));
            assert(pair_le(m, mm) && pair_le(mm, m));
            assert(m == mm);
        }
        if element.0 > m.0 || (element.0 == m.0 && element.1 > m.1) {
            // the element displaces the cutoff
            mmh_push(&mut self.min_max_heap, element);
            let evicted = match mmh_pop_min(&mut self.min_max_heap) {
                Some(v) => v,
                None => {
                    proof {
                        assert(mmh_contents(self.min_max_heap).contains(element));
                        assert(false);
                    }
                    return ;
                },
            };
            proof {
                let withe = old(self).spec_main().insert(element);
                assert(withe.contains(m));
                assert(pair_le(evicted, m) && pair_le(m, evicted));
                assert(evicted == m);
            }
            mmh_push(&mut self.ties, evicted);
            self.clean_up_ties();
        } else if tied(self.are_tied, m.0, element.0) {
            mmh_push(&mut self.ties, element);
            self.clean_up_ties();
        }
    }

    /// Drop no-longer-tied elements from the bottom of the tie heap.
    fn clean_up_ties(&mut self)
        requires
            old(self).spec_main().len() >= 1,
        ensures
            final(self).spec_main() == old(self).spec_main(),
            final(self).spec_size() == old(self).spec_size(),
            final(self).spec_rule() == old(self).spec_rule(),
            final(self).spec_ties() == spec_cleanup(
                old(self).spec_ties(),
                ms_min(old(self).spec_main()),
                old(self).spec_rule(),
            ),
    {
        let min_element_in_mmh = match mmh_peek_min(&self.min_max_heap) {
            Some(m) => m,
            None => {
                proof {
                    assert(false);
                }
                return ;
            },
        };
        proof {
            let mm = ms_min(self.spec_main());
            assert(self.spec_main().contains(mm) && is_lower_bound(mm, self.spec_main()));
            assert(min_element_in_mmh == mm);
        }
        loop
            invariant_except_break
                self.spec_main() == old(self).spec_main(),
                self.spec_size() == old(self).spec_size(),
                self.spec_rule() == old(self).spec_rule(),
                min_element_in_mmh == ms_min(old(self).spec_main()),
                spec_cleanup(self.spec_ties(), min_element_in_mmh, self.spec_rule())
                    == spec_cleanup(
                    old(self).spec_ties(),
                    min_element_in_mmh,
                    old(self).spec_rule(),
                ),
            ensures
                self.spec_main() == old(self).spec_main(),
                self.spec_size() == old(self).spec_size(),
                self.spec_rule() == old(self).spec_rule(),
                self.spec_ties() == spec_cleanup(
                    old(self).spec_ties(),
                    min_element_in_mmh,
                    old(self).spec_rule(),
                ),
            decreases self.spec_ties().len(),
        {
            let tm = match mmh_peek_min(&self.ties) {
                Some(tm) => tm,
                None => {
                    break ;
                },
            };
            proof {
                let sm = ms_min(self.spec_ties());
                assert(self.spec_ties().contains(tm));
                assert(self.spec_ties().contains(sm) && is_lower_bound(sm, self.spec_ties()));
                assert(tm == sm);
            }
            if !tied(self.are_tied, min_element_in_mmh.0, tm.0) {
                let popped = match mmh_pop_min(&mut self.ties) {
                    Some(p) => p,
                    None => {
                        proof {
                            assert(false);
                        }
                        break ;
                    },
                };
                proof {
                    assert(popped == tm);
                }
            } else {
                break ;
            }
        }
    }

    /// All retained elements: the main heap in descending order, then the
    /// tie heap in descending order.
    pub fn into_vecs_desc(self) -> (r: (Vec<(u64, u64)>, Vec<(u64, u64)>))
        ensures
            r.0@.to_multiset() == self.spec_main(),
            r.1@.to_multiset() == self.spec_ties(),
            r.0@.len() == self.spec_main().len(),
            r.1@.len() == self.spec_ties().len(),
            forall|i: int, j: int|
                0 <= i <= j < r.0@.len() ==> pair_le(#[trigger] r.0@[j], #[trigger] r.0@[i]),
            forall|i: int, j: int|
                0 <= i <= j < r.1@.len() ==> pair_le(#[trigger] r.1@[j], #[trigger] r.1@[i]),
    {
        let MinMaxTieHeap { min_max_heap, ties, size, are_tied } = self;
        let v0 = mmh_into_vec_desc(min_max_heap);
        let v1 = mmh_into_vec_desc(ties);
        (v0, v1)
    }

    /// The retained elements as one vector: the main heap descending, then
    /// the ties descending.
    pub fn into_vec_desc(self) -> (r: Vec<(u64, u64)>)
        ensures
            r@.len() == self.spec_main().len() + self.spec_ties().len(),
            r@.subrange(0, self.spec_main().len() as int).to_multiset() == self.spec_main(),
            r@.subrange(self.spec_main().len() as int, r@.len() as int).to_multiset()
                == self.spec_ties(),
            forall|i: int, j: int|
                0 <= i <= j < self.spec_main().len() ==> pair_le(
                    #[trigger] r@[j],
                    #[trigger] r@[i],
                ),
            forall|i: int, j: int|
                self.spec_main().len() <= i <= j < r@.len() ==> pair_le(
                    #[trigger] r@[j],
                    #[trigger] r@[i],
                ),
    {
        let ghost mainc = self.spec_main();
        let ghost tiesc = self.spec_ties();
        let (mut v0, mut v1) = self.into_vecs_desc();
        let ghost s0 = v0@;
        let ghost s1 = v1@;
        v0.append(&mut v1);
        proof {
            assert(v0@ == s0 + s1);
            assert(v0@.subrange(0, s0.len() as int) =~= s0);
            assert(v0@.subrange(s0.len() as int, v0@.len() as int) =~= s1);
        }
        v0
    }
}

} // verus!
