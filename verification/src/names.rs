//! Record types: raw names with identifiers, optionally carrying a group
//! key, and the processed form that pairs a record with its token multiset.

use crate::tokens::{seq_occ, views_of, TokenCounter};
use vstd::prelude::*;

verus! {

/// Capacity bound on one record's token list.  It keeps every later sum of
/// `count * weight^2` within `u64`, and is far beyond any name that fits in
/// memory.
pub const TOKEN_CAP: u64 = 1_048_576;

/// A raw record: a display name and an identifier.
pub trait UnprocessedName: Sized {
    /// The record's display name.
    spec fn spec_name(&self) -> Seq<char>;

    /// The record's identifier.
    spec fn spec_idx(&self) -> Seq<char>;

    fn unprocessed_name(&self) -> (r: &String)
        ensures
            r@ == self.spec_name(),
    ;

    fn idx(&self) -> (r: &String)
        ensures
            r@ == self.spec_idx(),
    ;

    /// The record's optional group key.
    spec fn spec_group(&self) -> Option<Seq<char>>;

    fn group_key(&self) -> (r: Option<&String>)
        ensures
            match r {
                Some(g) => self.spec_group() == Some(g@),
                None => self.spec_group() is None,
            },
    ;
}

/// Something that owns a record and can hand it back.
pub trait NameContainer<N: UnprocessedName> {
    fn get_name(&self) -> &N;
}

/// A record without a group key.
pub struct NameUngrouped {
    pub unprocessed: String,
    pub idx: String,
}

impl NameUngrouped {
    pub fn new(unprocessed: String, idx: String) -> (r: NameUngrouped)
        ensures
            r.unprocessed == unprocessed,
            r.idx == idx,
    {
        NameUngrouped { unprocessed, idx }
    }
}

impl UnprocessedName for NameUngrouped {
    open spec fn spec_name(&self) -> Seq<char> {
        self.unprocessed@
    }

    open spec fn spec_idx(&self) -> Seq<char> {
        self.idx@
    }

    open spec fn spec_group(&self) -> Option<Seq<char>> {
        None
    }

    fn unprocessed_name(&self) -> &String {
        &self.unprocessed
    }

    fn idx(&self) -> &String {
        &self.idx
    }

    fn group_key(&self) -> Option<&String> {
        None
    }
}

/// A record with a group key; candidates are restricted to records of the
/// same group.
pub struct NameGrouped {
    pub unprocessed: String,
    pub idx: String,
    pub group: String,
}

impl NameGrouped {
    pub fn new(unprocessed: String, idx: String, group: String) -> (r: NameGrouped)
        ensures
            r.unprocessed == unprocessed,
            r.idx == idx,
            r.group == group,
    {
        NameGrouped { unprocessed, idx, group }
    }

    pub fn group(&self) -> (r: &String)
        ensures
            r == &self.group,
    {
        &self.group
    }
}

impl UnprocessedName for NameGrouped {
    open spec fn spec_name(&self) -> Seq<char> {
        self.unprocessed@
    }

    open spec fn spec_idx(&self) -> Seq<char> {
        self.idx@
    }

    open spec fn spec_group(&self) -> Option<Seq<char>> {
        Some(self.group@)
    }

    fn unprocessed_name(&self) -> &String {
        &self.unprocessed
    }

    fn idx(&self) -> &String {
        &self.idx
    }

    fn group_key(&self) -> Option<&String> {
        Some(&self.group)
    }
}

/// A record together with its token multiset.
pub struct NameProcessed<N> {
    pub name: N,
    pub token_counter: TokenCounter,
}

impl<N> NameProcessed<N> {
    /// The token multiset is well formed and within the capacity bounds.
    pub open spec fn wf(&self) -> bool {
        &&& self.token_counter.wf()
        &&& self.token_counter.total() <= TOKEN_CAP
        &&& forall|i: int|
            0 <= i < self.token_counter.view_entries().len()
                ==> (#[trigger] self.token_counter.view_entries()[i]).0.len() <= TOKEN_CAP
    }

    /// Pair a record with the multiset of its (externally produced) tokens.
    pub fn new(name: N, tokens: Vec<String>) -> (r: NameProcessed<N>)
        requires
            tokens@.len() <= TOKEN_CAP,
            forall|i: int| 0 <= i < tokens@.len() ==> (#[trigger] tokens@[i])@.len() <= TOKEN_CAP,
        ensures
            r.wf(),
            r.name == name,
            forall|t: Seq<char>|
                r.token_counter.spec_count(t) == seq_occ(views_of(tokens@), t),
            r.token_counter.total() == tokens@.len(),
    {
        let token_counter = TokenCounter::from_tokens(&tokens);
        proof {
            let es = token_counter.view_entries();
            assert forall|i: int|
                0 <= i < es.len() implies (#[trigger] es[i]).0.len() <= TOKEN_CAP by {
                crate::tokens::lemma_seq_count_at(es, i);
                assert(token_counter.spec_count(es[i].0) >= 1);
                crate::tokens::lemma_seq_occ_pos_contains(views_of(tokens@), es[i].0);
                let j = choose|j: int|
                    0 <= j < views_of(tokens@).len() && views_of(tokens@)[j] == es[i].0;
                assert(tokens@[j]@ == es[i].0);
            }
        }
        NameProcessed { name, token_counter }
    }

    pub fn get_tokens(&self) -> (r: &TokenCounter)
        ensures
            r == &self.token_counter,
    {
        &self.token_counter
    }
}

} // verus!
