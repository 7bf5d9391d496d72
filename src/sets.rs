//! Listing the contents of the hash collections that hold element sets.

use vstd::prelude::*;
use std::collections::{HashMap, HashSet};
use vstd::std_specs::iter::IteratorSpec;

verus! {

use crate::order::{is_span, span_of, lemma_span, lemma_span_unique};

broadcast use vstd::std_specs::hash::group_hash_axioms;

/// The keys of `g`, each once, in the map's own order.
pub fn keys_of(g: &HashMap<usize, HashSet<usize>>) -> (r: Vec<usize>)
    ensures
        r@.to_set() == g@.dom(),
        r@.no_duplicates(),
        r@.len() == g@.dom().len(),
{
    let mut r: Vec<usize> = Vec::new();
    let ghost ks = g.keys().remaining().unref();
    for k in it: g.keys()
        invariant
            r@.len() == it.index(),
            it.seq().unref() == ks,
            forall|j: int| 0 <= j < it.index() ==> r@[j] == *it.seq()[j],
    {
        r.push(*k);
    }
    assert(r@ =~= ks);
    r
}

/// The members of `s`, each once, in the set's own order.
pub fn elems_of(s: &HashSet<usize>) -> (r: Vec<usize>)
    ensures
        r@.to_set() == s@,
        s@.finite(),
        r@.no_duplicates(),
        r@.len() == s@.len(),
{
    let mut r: Vec<usize> = Vec::new();
    let ghost ks = s.iter().remaining().unref();
    for k in it: s.iter()
        invariant
            r@.len() == it.index(),
            it.seq().unref() == ks,
            forall|j: int| 0 <= j < it.index() ==> r@[j] == *it.seq()[j],
    {
        r.push(*k);
    }
    assert(r@ =~= ks);
    proof {
        vstd::seq_lib::seq_to_set_is_finite(r@);
    }
    r
}

/// One past the largest key of `g`, or `0` when `g` is empty, where that fits in a `usize`.
pub fn key_span(g: &HashMap<usize, HashSet<usize>>) -> (r: usize)
    requires
        span_of(g@.dom()) <= usize::MAX,
    ensures
        r == span_of(g@.dom()),
{
    let ghost dom = g@.dom();
    proof {
        lemma_span(dom);
    }
    let ks = keys_of(g);
    let mut b: usize = 0;
    for i in 0..ks.len()
        invariant
            ks@.to_set() == dom,
            dom.finite(),
            is_span(dom, span_of(dom)),
            span_of(dom) <= usize::MAX,
            b <= span_of(dom),
            forall|j: int| 0 <= j < i ==> ks@[j] < b,
            b == 0 || dom.contains((b - 1) as usize),
    {
        let k = ks[i];
        assert(ks@.to_set().contains(k)) by {
            assert(ks@.contains(k));
        }
        if k >= b {
            b = k + 1;
        }
    }
    proof {
        assert forall|x: usize| dom.contains(x) implies x < b by {
            assert(ks@.to_set().contains(x));
            let j = choose|j: int| 0 <= j < ks@.len() && ks@[j] == x;
        }
        lemma_span_unique(dom, b as nat);
    }
    b
}

/// One past the largest member of `s`, or `0` when `s` is empty, where that fits in a `usize`.
pub fn set_span(s: &HashSet<usize>) -> (r: usize)
    requires
        s@.finite() ==> span_of(s@) <= usize::MAX,
    ensures
        s@.finite(),
        r == span_of(s@),
{
    let es = elems_of(s);
    let ghost dom = s@;
    proof {
        lemma_span(dom);
    }
    let mut b: usize = 0;
    for i in 0..es.len()
        invariant
            es@.to_set() == dom,
            dom.finite(),
            is_span(dom, span_of(dom)),
            span_of(dom) <= usize::MAX,
            b <= span_of(dom),
            forall|j: int| 0 <= j < i ==> es@[j] < b,
            b == 0 || dom.contains((b - 1) as usize),
    {
        let k = es[i];
        assert(es@.to_set().contains(k)) by {
            assert(es@.contains(k));
        }
        if k >= b {
            b = k + 1;
        }
    }
    proof {
        assert forall|x: usize| dom.contains(x) implies x < b by {
            assert(es@.to_set().contains(x));
            let j = choose|j: int| 0 <= j < es@.len() && es@[j] == x;
        }
        lemma_span_unique(dom, b as nat);
    }
    b
}

/// The only member of a one-member set.
pub fn only_member(s: &HashSet<usize>) -> (r: usize)
    requires
        s@.len() == 1,
    ensures
        s@ == set![r],
{
    let v = elems_of(s);
    let t = v[0];
    proof {
        assert(v@.contains(t));
        assert(s@.remove(t).len() == 0);
        assert(s@.remove(t) =~= Set::empty()) by {
            if exists|y: usize| s@.remove(t).contains(y) {
                let y = choose|y: usize| s@.remove(t).contains(y);
                assert(s@.remove(t).remove(y).len() + 1 == 0);
            }
        }
        assert(s@ =~= set![t]);
    }
    t
}

} // verus!
