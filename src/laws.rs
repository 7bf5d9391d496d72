//! Laws that every encoding obeys, stated over the order model that the operations' contracts
//! use: each operation's result is described by one of these constructions, so what holds of the
//! construction holds of every encoding's result.

use vstd::prelude::*;

verus! {

use crate::order::{
    Order,
    is_order,
    le,
    is_bottom,
    is_top,
    minimals_of,
    maximals_of,
    dual,
    restrict,
    with_bottom,
    below,
    chain,
    antichain,
    span_of,
    lemma_span,
    lemma_span_range,
    lemma_dual,
    lemma_restrict,
    lemma_with_bottom,
    lemma_chain,
    lemma_antichain,
};

/// Taking the dual twice gives back the order: `op(op(p))` denotes what `p` denotes.
pub proof fn law_dual_involution(u: Order)
    requires
        is_order(u),
    ensures
        dual(dual(u)) == u,
{
    lemma_dual(u);
}

/// The chain `0 < ... < n-1` orders its elements as the integers, has bottom `0`, top `n-1`,
/// and exactly one minimal and one maximal element.
pub proof fn law_chain(n: nat)
    requires
        1 <= n <= usize::MAX,
    ensures
        is_order(chain(n)),
        forall|i: usize, j: usize| #[trigger] le(chain(n), i, j) == (i <= j && j < n),
        is_bottom(chain(n), 0),
        is_top(chain(n), (n - 1) as usize),
        minimals_of(chain(n)) == set![0usize],
        maximals_of(chain(n)) == set![(n - 1) as usize],
{
    lemma_chain(n);
    let c = chain(n);
    let t = (n - 1) as usize;
    assert(minimals_of(c) =~= set![0usize]) by {
        assert forall|x: usize| minimals_of(c).contains(x) implies x == 0 by {
            assert(le(c, 0, x));
        }
    }
    assert(maximals_of(c) =~= set![t]) by {
        assert forall|x: usize| maximals_of(c).contains(x) implies x == t by {
            assert(le(c, x, t));
        }
    }
}

/// In an antichain of more than one element there is no top and no bottom, and every element
/// is both minimal and maximal.
pub proof fn law_antichain(n: nat)
    requires
        n <= usize::MAX,
    ensures
        is_order(antichain(n)),
        minimals_of(antichain(n)) == below(n),
        maximals_of(antichain(n)) == below(n),
        n > 1 ==> forall|b: usize| !is_bottom(antichain(n), b),
        n > 1 ==> forall|t: usize| !is_top(antichain(n), t),
{
    lemma_antichain(n);
    let c = antichain(n);
    assert(minimals_of(c) =~= below(n));
    assert(maximals_of(c) =~= below(n));
    if n > 1 {
        assert forall|b: usize| !is_bottom(c, b) by {
            if is_bottom(c, b) {
                let other: usize = if b == 0 { 1 } else { 0 };
                assert(le(c, b, other));
            }
        }
        assert forall|t: usize| !is_top(c, t) by {
            if is_top(c, t) {
                let other: usize = if t == 0 { 1 } else { 0 };
                assert(le(c, other, t));
            }
        }
    }
}

/// The corolla with `n >= 1` leaves has `n + 1` elements, the root `n` as its bottom and only
/// minimal element, and the `n` leaves as its maximal elements.
pub proof fn law_corolla(n: nat)
    requires
        1 <= n < usize::MAX,
    ensures
        is_order(with_bottom(antichain(n), n as usize)),
        with_bottom(antichain(n), n as usize).dom().len() == n + 1,
        is_bottom(with_bottom(antichain(n), n as usize), n as usize),
        minimals_of(with_bottom(antichain(n), n as usize)) == set![n as usize],
        maximals_of(with_bottom(antichain(n), n as usize)) == below(n),
        below(n).len() == n,
{
    law_antichain(n);
    lemma_span_range(n);
    lemma_with_bottom(antichain(n), n as usize);
}

/// Adjoining a bottom to a poset of `k` elements gives `k + 1` elements, the new element is
/// the only bottom, and it lies below every element, any earlier bottom included.
pub proof fn law_adjoin_bottom(u: Order)
    requires
        is_order(u),
        span_of(u.dom()) <= usize::MAX,
    ensures
        is_order(with_bottom(u, span_of(u.dom()) as usize)),
        with_bottom(u, span_of(u.dom()) as usize).dom().len() == u.dom().len() + 1,
        is_bottom(with_bottom(u, span_of(u.dom()) as usize), span_of(u.dom()) as usize),
        forall|b: usize|
            #[trigger] is_bottom(with_bottom(u, span_of(u.dom()) as usize), b) ==> b == span_of(u.dom()),
        forall|x: usize|
            u.contains_key(x) ==> #[trigger] le(
                with_bottom(u, span_of(u.dom()) as usize),
                span_of(u.dom()) as usize,
                x,
            ),
{
    lemma_span(u.dom());
    let b = span_of(u.dom()) as usize;
    lemma_with_bottom(u, b);
    let w = with_bottom(u, b);
    assert forall|c: usize| is_bottom(w, c) implies c == b by {
        assert(le(w, c, b));
        assert(le(w, b, c));
    }
}

/// The sub-poset on `s` has exactly the elements of `s`, related as they are in the poset.
pub proof fn law_sub(u: Order, s: Set<usize>)
    requires
        is_order(u),
        s.subset_of(u.dom()),
    ensures
        is_order(restrict(u, s)),
        restrict(u, s).dom() == s,
        forall|x: usize, y: usize|
            s.contains(x) && s.contains(y) ==> (#[trigger] le(restrict(u, s), x, y) == le(u, x, y)),
{
    lemma_restrict(u, s);
}

} // verus!
