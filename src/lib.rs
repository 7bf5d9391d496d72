//! Finite partially ordered sets in three interchangeable encodings.
//!
//! A poset is a finite set of element identifiers (`usize`) with a reflexive, antisymmetric and
//! transitive relation `<=`. It can be held as a boolean matrix ([posetm::PosetM]), as a map from
//! each element to everything above it ([posetg::PosetG]), or as its Hasse diagram, the covering
//! relation ([poseth::PosetH]). Every encoding denotes a value of [order::Order], the map from
//! each element to its up-set, and every operation is specified over that one model, so the
//! encodings agree by construction. The [convertors] move a poset between encodings.

use vstd::prelude::*;
use std::collections::HashSet;

pub mod convertors;
pub mod laws;
pub mod order;
pub mod posetg;
pub mod poseth;
pub mod posetm;
pub mod sets;

verus! {

use crate::order::{
    Order,
    bottom_info,
    top_info,
    minimals_of,
    maximals_of,
    le,
    span_of,
    with_bottom,
    with_top,
    restrict,
    dual,
    chain,
    antichain,
};

broadcast use vstd::std_specs::hash::group_hash_axioms;

/// The result of looking for a distinguished element, once the search has been made.
///
/// `A(i)` names the element found; `NotPresent` records that the poset provably has none.
/// Whether the search has been made at all is told apart by an outer `Option`.
#[derive(PartialEq, Debug, Hash, Eq, Clone, Copy)]
pub enum Elt {
    A(usize),
    NotPresent,
}

/// Facts about a poset that can be derived from its relation, cached once computed.
///
/// `None` in a field means the fact has not been computed yet. A field that holds a value is
/// always correct for the poset that owns it: every operation either recomputes a field it could
/// invalidate or keeps it only where it stays true.
#[derive(PartialEq, Debug)]
pub struct MetaData {
    /// The number of elements.
    pub n: usize,
    /// The greatest element, if the search for it has been made.
    pub top: Option<Elt>,
    /// The least element, if the search for it has been made.
    pub bot: Option<Elt>,
    /// The elements with nothing strictly below them.
    pub minimals: Option<HashSet<usize>>,
    /// The elements with nothing strictly above them.
    pub maximals: Option<HashSet<usize>>,
}

/// The ways an operation on a poset can be refused.
#[derive(PartialEq, Debug, Clone, Copy)]
pub enum PosetError {
    /// An element was named that the poset does not hold.
    IndexOutOfRange,
    /// A relation payload is not a partial order.
    MalformedRelation,
}

impl MetaData {
    /// Metadata for a poset of `n` elements with nothing computed yet.
    pub open spec fn is_fresh(&self, n: nat) -> bool {
        &&& self.n == n
        &&& self.top is None
        &&& self.bot is None
        &&& self.minimals is None
        &&& self.maximals is None
    }

    /// Every computed field is correct for the order `u`, and `n` is its number of elements.
    pub open spec fn describes(&self, u: Order) -> bool {
        &&& self.n == u.dom().len()
        &&& match self.top {
            Some(e) => top_info(u, e),
            None => true,
        }
        &&& match self.bot {
            Some(e) => bottom_info(u, e),
            None => true,
        }
        &&& match self.minimals {
            Some(s) => s@ == minimals_of(u),
            None => true,
        }
        &&& match self.maximals {
            Some(s) => s@ == maximals_of(u),
            None => true,
        }
    }

    pub fn new(n: usize) -> (r: MetaData)
        ensures
            r.is_fresh(n as nat),
    {
        MetaData { n, top: None, bot: None, minimals: None, maximals: None }
    }
}

/// The operations that every encoding of a poset provides, with one meaning across encodings.
pub trait Poset: Sized {
    /// The encoding is a well-formed poset and its metadata describes it.
    spec fn wf(&self) -> bool;

    /// The order the encoding denotes.
    spec fn order(&self) -> Order;

    /// The cached metadata.
    spec fn meta(&self) -> MetaData;

    /// All elements, each once.
    fn elements(&self) -> (r: Vec<usize>)
        requires
            self.wf(),
        ensures
            r@.to_set() == self.order().dom(),
            r@.no_duplicates(),
    ;

    /// Whether `x <= y`; an error when either is not an element.
    fn leq(&self, x: usize, y: usize) -> (r: Result<bool, PosetError>)
        requires
            self.wf(),
        ensures
            match r {
                Ok(b) => self.order().contains_key(x) && self.order().contains_key(y) && b == le(
                    self.order(),
                    x,
                    y,
                ),
                Err(e) => e == PosetError::IndexOutOfRange && !(self.order().contains_key(x)
                    && self.order().contains_key(y)),
            },
    ;

    /// Records in the metadata the least element, or that there is none.
    fn find_bot(&mut self)
        requires
            old(self).wf(),
        ensures
            final(self).wf(),
            final(self).order() == old(self).order(),
            final(self).meta().bot matches Some(e) && bottom_info(old(self).order(), e),
            final(self).meta().n == old(self).meta().n,
            final(self).meta().top == old(self).meta().top,
            final(self).meta().minimals == old(self).meta().minimals,
            final(self).meta().maximals == old(self).meta().maximals,
    ;

    /// Records in the metadata the maximal elements and, from them, the greatest element or
    /// that there is none.
    fn find_top(&mut self)
        requires
            old(self).wf(),
        ensures
            final(self).wf(),
            final(self).order() == old(self).order(),
            final(self).meta().top matches Some(e) && top_info(old(self).order(), e),
            final(self).meta().maximals matches Some(s) && s@ == maximals_of(old(self).order()),
            final(self).meta().n == old(self).meta().n,
            final(self).meta().bot == old(self).meta().bot,
            final(self).meta().minimals == old(self).meta().minimals,
    ;

    /// Records in the metadata the set of minimal elements.
    fn find_minimals(&mut self)
        requires
            old(self).wf(),
        ensures
            final(self).wf(),
            final(self).order() == old(self).order(),
            final(self).meta().minimals matches Some(s) && s@ == minimals_of(old(self).order()),
            final(self).meta().n == old(self).meta().n,
            final(self).meta().top == old(self).meta().top,
            final(self).meta().bot == old(self).meta().bot,
            final(self).meta().maximals == old(self).meta().maximals,
    ;

    /// Records in the metadata the set of maximal elements.
    fn find_maximals(&mut self)
        requires
            old(self).wf(),
        ensures
            final(self).wf(),
            final(self).order() == old(self).order(),
            final(self).meta().maximals matches Some(s) && s@ == maximals_of(old(self).order()),
            final(self).meta().n == old(self).meta().n,
            final(self).meta().top == old(self).meta().top,
            final(self).meta().bot == old(self).meta().bot,
            final(self).meta().minimals == old(self).meta().minimals,
    ;

    /// The dual poset: the same elements with every relation reversed.
    fn op(&self) -> (r: Self)
        requires
            self.wf(),
        ensures
            r.wf(),
            r.order() == dual(self.order()),
            r.meta().is_fresh(self.meta().n as nat),
    ;

    /// The chain `0 < 1 < ... < n-1`.
    fn new_chain(n: usize) -> (r: Self)
        ensures
            r.wf(),
            r.order() == chain(n as nat),
            r.meta().is_fresh(n as nat),
    ;

    /// `n` pairwise incomparable elements `0, ..., n-1`.
    fn new_antichain(n: usize) -> (r: Self)
        ensures
            r.wf(),
            r.order() == antichain(n as nat),
            r.meta().is_fresh(n as nat),
    ;

    /// Adds a new element below every element. It is named one past the largest element (so
    /// `n` where the elements are `0..n`), and becomes the recorded bottom and only minimal.
    fn adjoin_bot(&mut self)
        requires
            old(self).wf(),
            span_of(old(self).order().dom()) < usize::MAX,
        ensures
            final(self).wf(),
            final(self).order() == with_bottom(
                old(self).order(),
                span_of(old(self).order().dom()) as usize,
            ),
            final(self).meta().n == old(self).meta().n + 1,
            final(self).meta().bot == Some(Elt::A(span_of(old(self).order().dom()) as usize)),
            final(self).meta().minimals matches Some(s) && s@ == set![
                span_of(old(self).order().dom()) as usize,
            ],
    ;

    /// Adds a new element above every element. It is named one past the largest element (so
    /// `n` where the elements are `0..n`), and becomes the recorded top and only maximal.
    fn adjoin_top(&mut self)
        requires
            old(self).wf(),
            span_of(old(self).order().dom()) < usize::MAX,
        ensures
            final(self).wf(),
            final(self).order() == with_top(
                old(self).order(),
                span_of(old(self).order().dom()) as usize,
            ),
            final(self).meta().n == old(self).meta().n + 1,
            final(self).meta().top == Some(Elt::A(span_of(old(self).order().dom()) as usize)),
            final(self).meta().maximals matches Some(s) && s@ == set![
                span_of(old(self).order().dom()) as usize,
            ],
    ;

    /// One root below `n` pairwise incomparable leaves `0, ..., n-1`; the root is `n`.
    fn new_corolla(n: usize) -> (r: Self)
        requires
            n < usize::MAX,
        ensures
            r.wf(),
            r.order() == with_bottom(antichain(n as nat), n),
            r.meta().n == n + 1,
            r.meta().bot == Some(Elt::A(n)),
    {
        let mut c_n = Self::new_antichain(n);
        proof {
            crate::order::lemma_span_range(n as nat);
        }
        c_n.adjoin_bot();
        c_n
    }

    /// The sub-poset induced on the elements of `s_0`, which keep their identifiers; an error
    /// when `s_0` names an element the poset does not hold.
    fn sub(&self, s_0: &HashSet<usize>) -> (r: Result<Self, PosetError>)
        requires
            self.wf(),
        ensures
            match r {
                Ok(q) => s_0@.subset_of(self.order().dom()) && q.wf() && q.order() == restrict(
                    self.order(),
                    s_0@,
                ) && q.meta().is_fresh(s_0@.len()),
                Err(e) => e == PosetError::IndexOutOfRange && !s_0@.subset_of(self.order().dom()),
            },
    ;
}

} // verus!
