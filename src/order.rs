//! The mathematical model shared by every encoding: a finite partial order given as the map from
//! each element to its up-set, with the derived notions (extremal elements, covers, duals,
//! sub-orders, adjoined elements, canonical shapes) and the facts proved about them.

use vstd::prelude::*;

verus! {

use crate::Elt;

/// A finite order on identifiers: `u[x]` is the set of all `y` with `x <= y`. The domain of the
/// map is the set of elements.
pub type Order = Map<usize, Set<usize>>;

/// `x <= y` in `u`.
pub open spec fn le(u: Order, x: usize, y: usize) -> bool {
    u.contains_key(x) && u[x].contains(y)
}

/// `u` is a finite partial order: reflexive, antisymmetric, transitive, closed over its domain.
pub open spec fn is_order(u: Order) -> bool {
    &&& u.dom().finite()
    &&& forall|x: usize| #[trigger] u.contains_key(x) ==> le(u, x, x)
    &&& forall|x: usize, y: usize| #[trigger] le(u, x, y) ==> u.contains_key(y)
    &&& forall|x: usize, y: usize| #[trigger] le(u, x, y) && #[trigger] le(u, y, x) ==> x == y
    &&& forall|x: usize, y: usize, z: usize|
        #[trigger] le(u, x, y) && #[trigger] le(u, y, z) ==> le(u, x, z)
}

/// `b` is below every element.
pub open spec fn is_bottom(u: Order, b: usize) -> bool {
    &&& u.contains_key(b)
    &&& forall|x: usize| u.contains_key(x) ==> #[trigger] le(u, b, x)
}

/// `t` is above every element.
pub open spec fn is_top(u: Order, t: usize) -> bool {
    &&& u.contains_key(t)
    &&& forall|x: usize| u.contains_key(x) ==> #[trigger] le(u, x, t)
}

/// Nothing lies strictly below `x`.
pub open spec fn is_minimal(u: Order, x: usize) -> bool {
    &&& u.contains_key(x)
    &&& forall|y: usize| #[trigger] le(u, y, x) ==> y == x
}

/// Nothing lies strictly above `x`.
pub open spec fn is_maximal(u: Order, x: usize) -> bool {
    &&& u.contains_key(x)
    &&& forall|y: usize| #[trigger] le(u, x, y) ==> y == x
}

pub open spec fn minimals_of(u: Order) -> Set<usize> {
    Set::new(|x: usize| is_minimal(u, x))
}

pub open spec fn maximals_of(u: Order) -> Set<usize> {
    Set::new(|x: usize| is_maximal(u, x))
}

/// `e` is the outcome of a correct search for the bottom of `u`.
pub open spec fn bottom_info(u: Order, e: Elt) -> bool {
    match e {
        Elt::A(b) => is_bottom(u, b),
        Elt::NotPresent => forall|b: usize| !is_bottom(u, b),
    }
}

/// `e` is the outcome of a correct search for the top of `u`.
pub open spec fn top_info(u: Order, e: Elt) -> bool {
    match e {
        Elt::A(t) => is_top(u, t),
        Elt::NotPresent => forall|t: usize| !is_top(u, t),
    }
}

/// `y` covers `x`: `x < y` with nothing strictly between.
pub open spec fn covers(u: Order, x: usize, y: usize) -> bool {
    &&& le(u, x, y)
    &&& x != y
    &&& forall|k: usize| #[trigger] le(u, x, k) && #[trigger] le(u, k, y) ==> k == x || k == y
}

/// The Hasse diagram of `u`: each element mapped to the elements that cover it.
pub open spec fn covers_of(u: Order) -> Order {
    Map::new(|x: usize| u.contains_key(x), |x: usize| Set::new(|y: usize| covers(u, x, y)))
}

/// The dual order: the same elements, every relation reversed.
pub open spec fn dual(u: Order) -> Order {
    Map::new(|x: usize| u.contains_key(x), |x: usize| Set::new(|y: usize| le(u, y, x)))
}

/// The order induced on the elements of `u` that lie in `s`.
pub open spec fn restrict(u: Order, s: Set<usize>) -> Order {
    Map::new(|x: usize| u.contains_key(x) && s.contains(x), |x: usize| u[x].intersect(s))
}

/// `u` with a new element `b` placed below every element.
pub open spec fn with_bottom(u: Order, b: usize) -> Order {
    u.insert(b, u.dom().insert(b))
}

/// `u` with a new element `t` placed above every element.
pub open spec fn with_top(u: Order, t: usize) -> Order {
    Map::new(
        |x: usize| u.contains_key(x) || x == t,
        |x: usize|
            if x == t {
                set![t]
            } else {
                u[x].insert(t)
            },
    )
}

/// The identifiers `0..n`.
pub open spec fn below(n: nat) -> Set<usize> {
    Set::new(|i: usize| i < n)
}

/// The chain `0 < 1 < ... < n-1`.
pub open spec fn chain(n: nat) -> Order {
    Map::new(|i: usize| i < n, |i: usize| Set::new(|j: usize| i <= j && j < n))
}

/// The antichain of `n` incomparable elements `0, ..., n-1`.
pub open spec fn antichain(n: nat) -> Order {
    Map::new(|i: usize| i < n, |i: usize| set![i])
}

/// `b` is one past the largest element of `s`, or `0` when `s` is empty.
pub open spec fn is_span(s: Set<usize>, b: nat) -> bool {
    &&& b <= usize::MAX + 1
    &&& forall|x: usize| s.contains(x) ==> x < b
    &&& b == 0 || s.contains((b - 1) as usize)
}

/// One past the largest element of `s`, or `0` when `s` is empty: the identifier that an
/// adjoined element receives.
pub open spec fn span_of(s: Set<usize>) -> nat {
    choose|b: nat| is_span(s, b)
}

// ---------------------------------------------------------------- spans

pub proof fn lemma_span_exists(s: Set<usize>) -> (b: nat)
    requires
        s.finite(),
    ensures
        is_span(s, b),
    decreases s.len(),
{
    if s.len() == 0 {
        assert(s =~= Set::empty()) by {
            if exists|x: usize| s.contains(x) {
                let x = choose|x: usize| s.contains(x);
                assert(s.remove(x).len() + 1 == s.len());
            }
        }
        0
    } else {
        let x = s.choose();
        assert(s.contains(x)) by {
            if !s.contains(x) {
                assert(s =~= Set::empty());
            }
        }
        let r = s.remove(x);
        let b1 = lemma_span_exists(r);
        if b1 > x + 1 {
            assert(r.contains((b1 - 1) as usize));
            b1
        } else {
            assert forall|y: usize| s.contains(y) implies y < x + 1 by {
                if y != x {
                    assert(r.contains(y));
                }
            }
            (x + 1) as nat
        }
    }
}

/// `span_of(s)` is one past the largest element of a finite set `s`.
pub proof fn lemma_span(s: Set<usize>)
    requires
        s.finite(),
    ensures
        is_span(s, span_of(s)),
{
    let b = lemma_span_exists(s);
}

/// The span is the only value with the span's properties.
pub proof fn lemma_span_unique(s: Set<usize>, b: nat)
    requires
        s.finite(),
        is_span(s, b),
    ensures
        span_of(s) == b,
{
    lemma_span(s);
    let c = span_of(s);
    if c < b {
        assert(s.contains((b - 1) as usize));
    } else if b < c {
        assert(s.contains((c - 1) as usize));
    }
}

/// A finite set has no more members than its span.
pub proof fn lemma_len_le_span(s: Set<usize>)
    requires
        s.finite(),
    ensures
        s.len() <= span_of(s),
{
    lemma_span(s);
    lemma_span_range(span_of(s));
    assert(s.subset_of(below(span_of(s))));
    vstd::set_lib::lemma_len_subset(s, below(span_of(s)));
}

/// The identifiers `0..n` have `n` elements and span `n`.
pub proof fn lemma_span_range(n: nat)
    requires
        n <= usize::MAX + 1,
    ensures
        below(n).finite(),
        below(n).len() == n,
        span_of(below(n)) == n,
        chain(n).dom() == below(n),
        antichain(n).dom() == below(n),
{
    assert(below(n) =~= Set::<usize>::range(0, (n - 1) as usize).insert((n - 1) as usize)
        || n == 0);
    if n == 0 {
        assert(below(n) =~= Set::<usize>::range(0, 0));
        vstd::set_lib::range_set_properties::<usize>(0, 0);
    } else {
        let m = (n - 1) as usize;
        vstd::set_lib::range_set_properties::<usize>(0, m);
        assert(below(n) =~= Set::<usize>::range(0, m).insert(m));
        assert(!Set::<usize>::range(0, m).contains(m));
    }
    lemma_span_unique(below(n), n);
    assert(chain(n).dom() =~= below(n));
    assert(antichain(n).dom() =~= below(n));
}

// ---------------------------------------------------------------- extremal elements

/// A finite nonempty set of elements has an element with nothing of the set strictly above it.
pub proof fn lemma_maximal_in(u: Order, s: Set<usize>) -> (m: usize)
    requires
        is_order(u),
        s.finite(),
        s.len() > 0,
        s.subset_of(u.dom()),
    ensures
        s.contains(m),
        forall|y: usize| s.contains(y) && #[trigger] le(u, m, y) ==> y == m,
    decreases s.len(),
{
    let x = s.choose();
    assert(s.contains(x)) by {
        if !s.contains(x) {
            assert(s =~= Set::empty());
        }
    }
    let r = s.remove(x);
    if r.len() == 0 {
        assert(r =~= Set::empty()) by {
            if exists|y: usize| r.contains(y) {
                let y = choose|y: usize| r.contains(y);
                assert(r.remove(y).len() + 1 == r.len());
            }
        }
        assert forall|y: usize| s.contains(y) implies y == x by {
            if y != x {
                assert(r.contains(y));
            }
        }
        x
    } else {
        let m1 = lemma_maximal_in(u, r);
        if le(u, m1, x) {
            assert forall|y: usize| s.contains(y) && #[trigger] le(u, x, y) implies y == x by {
                if y != x {
                    assert(r.contains(y));
                    assert(le(u, m1, y));
                }
            }
            x
        } else {
            m1
        }
    }
}

/// A finite nonempty set of elements has an element with nothing of the set strictly below it.
pub proof fn lemma_minimal_in(u: Order, s: Set<usize>) -> (m: usize)
    requires
        is_order(u),
        s.finite(),
        s.len() > 0,
        s.subset_of(u.dom()),
    ensures
        s.contains(m),
        forall|y: usize| s.contains(y) && #[trigger] le(u, y, m) ==> y == m,
    decreases s.len(),
{
    let x = s.choose();
    assert(s.contains(x)) by {
        if !s.contains(x) {
            assert(s =~= Set::empty());
        }
    }
    let r = s.remove(x);
    if r.len() == 0 {
        assert(r =~= Set::empty()) by {
            if exists|y: usize| r.contains(y) {
                let y = choose|y: usize| r.contains(y);
                assert(r.remove(y).len() + 1 == r.len());
            }
        }
        assert forall|y: usize| s.contains(y) implies y == x by {
            if y != x {
                assert(r.contains(y));
            }
        }
        x
    } else {
        let m1 = lemma_minimal_in(u, r);
        if le(u, x, m1) {
            assert forall|y: usize| s.contains(y) && #[trigger] le(u, y, x) implies y == x by {
                if y != x {
                    assert(r.contains(y));
                    assert(le(u, y, m1));
                }
            }
            x
        } else {
            m1
        }
    }
}

/// The up-set of an element is a finite set of elements.
pub proof fn lemma_up_set(u: Order, x: usize)
    requires
        is_order(u),
        u.contains_key(x),
    ensures
        u[x].subset_of(u.dom()),
        u[x].finite(),
        u[x].len() > 0,
{
    assert forall|y: usize| u[x].contains(y) implies u.dom().contains(y) by {
        assert(le(u, x, y));
    }
    vstd::set_lib::lemma_len_subset(u[x], u.dom());
    assert(le(u, x, x));
    if u[x].len() == 0 {
        assert(u[x] =~= Set::empty());
    }
}

/// Every element lies below some maximal element.
pub proof fn lemma_maximal_above(u: Order, x: usize) -> (m: usize)
    requires
        is_order(u),
        u.contains_key(x),
    ensures
        is_maximal(u, m),
        le(u, x, m),
{
    lemma_up_set(u, x);
    let m = lemma_maximal_in(u, u[x]);
    assert(le(u, x, m));
    assert forall|y: usize| #[trigger] le(u, m, y) implies y == m by {
        assert(le(u, x, y));
    }
    m
}

/// Every element lies above some minimal element.
pub proof fn lemma_minimal_below(u: Order, x: usize) -> (m: usize)
    requires
        is_order(u),
        u.contains_key(x),
    ensures
        is_minimal(u, m),
        le(u, m, x),
{
    let s = Set::new(|y: usize| le(u, y, x));
    assert(s.subset_of(u.dom()));
    vstd::set_lib::lemma_len_subset(s, u.dom());
    assert(s.contains(x));
    if s.len() == 0 {
        assert(s =~= Set::empty());
    }
    let m = lemma_minimal_in(u, s);
    assert forall|y: usize| #[trigger] le(u, y, m) implies y == m by {
        assert(le(u, y, x));
        assert(s.contains(y));
    }
    m
}

/// The maximal elements form a finite set.
pub proof fn lemma_maximals_finite(u: Order)
    requires
        is_order(u),
    ensures
        maximals_of(u).finite(),
        minimals_of(u).finite(),
{
    vstd::set_lib::lemma_len_subset(maximals_of(u), u.dom());
    vstd::set_lib::lemma_len_subset(minimals_of(u), u.dom());
}

/// The top exists exactly when there is one maximal element, and then it is that element.
pub proof fn lemma_top_from_maximals(u: Order)
    requires
        is_order(u),
    ensures
        forall|t: usize| is_top(u, t) <==> maximals_of(u) == set![t],
{
    assert forall|t: usize| is_top(u, t) <==> maximals_of(u) == set![t] by {
        if is_top(u, t) {
            assert forall|y: usize| maximals_of(u).contains(y) <==> y == t by {
                if y == t {
                    assert forall|z: usize| #[trigger] le(u, t, z) implies z == t by {
                        assert(le(u, z, t));
                    }
                }
                if maximals_of(u).contains(y) {
                    assert(le(u, y, t));
                }
            }
            assert(maximals_of(u) =~= set![t]);
        }
        if maximals_of(u) == set![t] {
            assert(maximals_of(u).contains(t));
            assert forall|x: usize| u.contains_key(x) implies #[trigger] le(u, x, t) by {
                let m = lemma_maximal_above(u, x);
                assert(maximals_of(u).contains(m));
            }
        }
    }
}

/// The bottom exists exactly when there is one minimal element, and then it is that element.
pub proof fn lemma_bottom_from_minimals(u: Order)
    requires
        is_order(u),
    ensures
        forall|b: usize| is_bottom(u, b) <==> minimals_of(u) == set![b],
{
    assert forall|b: usize| is_bottom(u, b) <==> minimals_of(u) == set![b] by {
        if is_bottom(u, b) {
            assert forall|y: usize| minimals_of(u).contains(y) <==> y == b by {
                if y == b {
                    assert forall|z: usize| #[trigger] le(u, z, b) implies z == b by {
                        assert(le(u, b, z));
                    }
                }
                if minimals_of(u).contains(y) {
                    assert(le(u, b, y));
                }
            }
            assert(minimals_of(u) =~= set![b]);
        }
        if minimals_of(u) == set![b] {
            assert(minimals_of(u).contains(b));
            assert forall|x: usize| u.contains_key(x) implies #[trigger] le(u, b, x) by {
                let m = lemma_minimal_below(u, x);
                assert(minimals_of(u).contains(m));
            }
        }
    }
}

// ---------------------------------------------------------------- covers

/// Below any `y` strictly above `x` there is an element that covers `x`.
pub proof fn lemma_cover_above(u: Order, x: usize, y: usize) -> (z: usize)
    requires
        is_order(u),
        le(u, x, y),
        x != y,
    ensures
        covers(u, x, z),
        le(u, z, y),
{
    let s = Set::new(|k: usize| le(u, x, k) && le(u, k, y) && k != x);
    lemma_up_set(u, x);
    assert(s.subset_of(u[x]));
    vstd::set_lib::lemma_len_subset(s, u[x]);
    assert(s.contains(y));
    if s.len() == 0 {
        assert(s =~= Set::empty());
    }
    let z = lemma_minimal_in(u, s);
    assert forall|k: usize| #[trigger] le(u, x, k) && #[trigger] le(u, k, z) implies k == x || k
        == z by {
        if k != x {
            assert(le(u, k, y));
            assert(s.contains(k));
        }
    }
    z
}

/// Above any `x` strictly below `y` there is an element that `y` covers.
pub proof fn lemma_cover_below(u: Order, x: usize, y: usize) -> (z: usize)
    requires
        is_order(u),
        le(u, x, y),
        x != y,
    ensures
        covers(u, z, y),
        le(u, x, z),
{
    let s = Set::new(|k: usize| le(u, x, k) && le(u, k, y) && k != y);
    lemma_up_set(u, x);
    assert(s.subset_of(u[x]));
    vstd::set_lib::lemma_len_subset(s, u[x]);
    assert(s.contains(x));
    if s.len() == 0 {
        assert(s =~= Set::empty());
    }
    let z = lemma_maximal_in(u, s);
    assert forall|k: usize| #[trigger] le(u, z, k) && #[trigger] le(u, k, y) implies k == z || k
        == y by {
        if k != y {
            assert(le(u, x, k));
            assert(s.contains(k));
        }
    }
    z
}

/// A set that holds `x` and is closed under covers holds everything above `x`.
pub proof fn lemma_closed_under_covers(u: Order, x: usize, v: Set<usize>)
    requires
        is_order(u),
        v.contains(x),
        forall|a: usize, b: usize| v.contains(a) && #[trigger] covers(u, a, b) ==> v.contains(b),
    ensures
        forall|y: usize| #[trigger] le(u, x, y) ==> v.contains(y),
{
    assert forall|y: usize| #[trigger] le(u, x, y) implies v.contains(y) by {
        if !v.contains(y) {
            let t = Set::new(|w: usize| v.contains(w) && le(u, w, y));
            assert(t.subset_of(u.dom()));
            vstd::set_lib::lemma_len_subset(t, u.dom());
            assert(t.contains(x));
            if t.len() == 0 {
                assert(t =~= Set::empty());
            }
            let m = lemma_maximal_in(u, t);
            let z = lemma_cover_above(u, m, y);
            assert(v.contains(z));
            assert(t.contains(z));
        }
    }
}

/// An element is maximal exactly when nothing covers it.
pub proof fn lemma_maximal_iff_no_cover(u: Order, x: usize)
    requires
        is_order(u),
        u.contains_key(x),
    ensures
        is_maximal(u, x) <==> covers_of(u)[x] == Set::<usize>::empty(),
{
    if is_maximal(u, x) {
        assert(covers_of(u)[x] =~= Set::<usize>::empty());
    } else {
        let y = choose|y: usize| #[trigger] le(u, x, y) && y != x;
        let z = lemma_cover_above(u, x, y);
        assert(covers_of(u)[x].contains(z));
    }
}

/// An element is minimal exactly when it covers nothing.
pub proof fn lemma_minimal_iff_covers_nothing(u: Order, x: usize)
    requires
        is_order(u),
        u.contains_key(x),
    ensures
        is_minimal(u, x) <==> forall|y: usize| #[trigger] covers(u, y, x) ==> false,
{
    if !is_minimal(u, x) {
        let y = choose|y: usize| #[trigger] le(u, y, x) && y != x;
        let z = lemma_cover_below(u, y, x);
    }
}

/// A finite order is determined by its Hasse diagram.
pub proof fn lemma_covers_determine_order(u: Order, w: Order)
    requires
        is_order(u),
        is_order(w),
        covers_of(u) == covers_of(w),
    ensures
        u == w,
{
    assert(u.dom() =~= covers_of(u).dom());
    assert(w.dom() =~= covers_of(w).dom());
    assert forall|a: usize, b: usize| covers(u, a, b) <==> covers(w, a, b) by {
        assert(u.contains_key(a) == covers_of(u).contains_key(a));
        assert(w.contains_key(a) == covers_of(w).contains_key(a));
        if u.contains_key(a) {
            assert(covers_of(u)[a] == covers_of(w)[a]);
            assert(covers_of(u)[a].contains(b) == covers(u, a, b));
            assert(covers_of(w)[a].contains(b) == covers(w, a, b));
        }
    }
    assert forall|x: usize| #[trigger] u.contains_key(x) implies u[x] =~= w[x] by {
        assert(w.contains_key(x));
        assert(le(w, x, x));
        assert(le(u, x, x));
        assert forall|a: usize, b: usize| u[x].contains(a) && #[trigger] covers(w, a, b) implies u[
            x].contains(b) by {
            assert(covers(u, a, b));
            assert(le(u, x, a));
        }
        lemma_closed_under_covers(w, x, u[x]);
        assert forall|a: usize, b: usize| w[x].contains(a) && #[trigger] covers(u, a, b) implies w[
            x].contains(b) by {
            assert(covers(w, a, b));
            assert(le(w, x, a));
        }
        lemma_closed_under_covers(u, x, w[x]);
        assert forall|y: usize| u[x].contains(y) <==> w[x].contains(y) by {
            if u[x].contains(y) {
                assert(le(u, x, y));
            }
            if w[x].contains(y) {
                assert(le(w, x, y));
            }
        }
    }
    assert(u =~= w);
}

// ---------------------------------------------------------------- constructions

/// A finite set of identifiers with as many members as a set it lies in is that set.
pub proof fn lemma_subset_same_len(a: Set<usize>, b: Set<usize>)
    requires
        b.finite(),
        a.subset_of(b),
        a.len() == b.len(),
    ensures
        a == b,
{
    vstd::set_lib::lemma_len_subset(a, b);
    if exists|x: usize| b.contains(x) && !a.contains(x) {
        let x = choose|x: usize| b.contains(x) && !a.contains(x);
        assert(a.subset_of(b.remove(x)));
        vstd::set_lib::lemma_len_subset(a, b.remove(x));
    }
    assert(a =~= b);
}

/// The dual of an order is an order on the same elements, and dualising twice gives it back.
pub proof fn lemma_dual(u: Order)
    requires
        is_order(u),
    ensures
        is_order(dual(u)),
        dual(u).dom() == u.dom(),
        forall|x: usize, y: usize| #[trigger] le(dual(u), x, y) == le(u, y, x),
        dual(dual(u)) == u,
{
    let d = dual(u);
    assert(d.dom() =~= u.dom());
    assert forall|x: usize, y: usize| #[trigger] le(d, x, y) == le(u, y, x) by {
        if le(u, y, x) {
            assert(u.contains_key(x));
        }
    }
    assert forall|x: usize| #[trigger] dual(d).contains_key(x) implies dual(d)[x] =~= u[x] by {
        assert forall|y: usize| dual(d)[x].contains(y) == u[x].contains(y) by {
            assert(le(d, y, x) == le(u, x, y));
        }
    }
    assert(dual(d) =~= u);
}

/// Restricting an order to some of its elements gives an order on exactly those elements.
pub proof fn lemma_restrict(u: Order, s: Set<usize>)
    requires
        is_order(u),
        s.subset_of(u.dom()),
    ensures
        is_order(restrict(u, s)),
        restrict(u, s).dom() == s,
        forall|x: usize, y: usize| #[trigger] le(restrict(u, s), x, y) == (s.contains(x)
            && s.contains(y) && le(u, x, y)),
{
    let r = restrict(u, s);
    assert(r.dom() =~= s);
    vstd::set_lib::lemma_len_subset(s, u.dom());
    assert forall|x: usize, y: usize| #[trigger] le(r, x, y) == (s.contains(x) && s.contains(y)
        && le(u, x, y)) by {}
}

/// Adjoining a new bottom `b` gives an order in which `b` is the bottom and the only minimal
/// element, and the rest keeps its relations, its maximal elements and its top.
pub proof fn lemma_with_bottom(u: Order, b: usize)
    requires
        is_order(u),
        !u.contains_key(b),
    ensures
        is_order(with_bottom(u, b)),
        with_bottom(u, b).dom() == u.dom().insert(b),
        with_bottom(u, b).dom().len() == u.dom().len() + 1,
        forall|x: usize, y: usize| #[trigger] le(with_bottom(u, b), x, y) == ((x == b && (y == b
            || u.contains_key(y))) || le(u, x, y)),
        is_bottom(with_bottom(u, b), b),
        minimals_of(with_bottom(u, b)) == set![b],
        u.dom().len() > 0 ==> maximals_of(with_bottom(u, b)) == maximals_of(u),
        u.dom().len() > 0 ==> forall|t: usize| is_top(with_bottom(u, b), t) == is_top(u, t),
{
    let w = with_bottom(u, b);
    assert(w.dom() =~= u.dom().insert(b));
    assert forall|x: usize, y: usize| #[trigger] le(w, x, y) == ((x == b && (y == b
        || u.contains_key(y))) || le(u, x, y)) by {
        if x != b {
            assert(w[x] == u[x]);
        }
    }
    assert forall|x: usize, y: usize| #[trigger] le(w, x, y) implies w.contains_key(y) by {
        if x != b {
            assert(le(u, x, y));
        }
    }
    assert forall|x: usize, y: usize, z: usize|
        #[trigger] le(w, x, y) && #[trigger] le(w, y, z) implies le(w, x, z) by {
        if x != b && y != b {
            assert(le(u, x, y) && le(u, y, z));
        }
        if x != b && y == b {
            assert(le(u, x, b));
        }
        if x == b && y != b {
            assert(le(u, y, z));
        }
    }
    assert forall|x: usize, y: usize| #[trigger] le(w, x, y) && #[trigger] le(w, y, x) implies x
        == y by {
        if x == b && y != b {
            assert(le(u, y, b));
        }
        if y == b && x != b {
            assert(le(u, x, b));
        }
    }
    assert(is_order(w));
    assert(minimals_of(w) =~= set![b]) by {
        assert forall|x: usize| minimals_of(w).contains(x) implies x == b by {
            assert(le(w, b, x));
        }
        assert forall|y: usize| #[trigger] le(w, y, b) implies y == b by {
            if y != b {
                assert(le(u, y, b));
            }
        }
    }
    if u.dom().len() > 0 {
        let a = u.dom().choose();
        assert(u.contains_key(a)) by {
            if !u.contains_key(a) {
                assert(u.dom() =~= Set::empty());
            }
        }
        assert(maximals_of(w) =~= maximals_of(u)) by {
            assert forall|x: usize| maximals_of(w).contains(x) == maximals_of(u).contains(x) by {
                if x == b {
                    assert(le(w, b, a));
                } else if is_maximal(u, x) {
                    assert forall|y: usize| #[trigger] le(w, x, y) implies y == x by {
                        assert(le(u, x, y));
                    }
                } else if is_maximal(w, x) {
                    assert forall|y: usize| #[trigger] le(u, x, y) implies y == x by {
                        assert(le(w, x, y));
                    }
                }
            }
        }
        assert forall|t: usize| is_top(w, t) == is_top(u, t) by {
            if is_top(w, t) {
                assert(le(w, a, t));
                assert forall|x: usize| u.contains_key(x) implies #[trigger] le(u, x, t) by {
                    assert(le(w, x, t));
                }
            }
            if is_top(u, t) {
                assert forall|x: usize| w.contains_key(x) implies #[trigger] le(w, x, t) by {
                    if x != b {
                        assert(le(u, x, t));
                    }
                }
            }
        }
    }
}

/// Adjoining a new top `t` gives an order in which `t` is the top and the only maximal element,
/// and the rest keeps its relations, its minimal elements and its bottom.
pub proof fn lemma_with_top(u: Order, t: usize)
    requires
        is_order(u),
        !u.contains_key(t),
    ensures
        is_order(with_top(u, t)),
        with_top(u, t).dom() == u.dom().insert(t),
        with_top(u, t).dom().len() == u.dom().len() + 1,
        forall|x: usize, y: usize| #[trigger] le(with_top(u, t), x, y) == ((y == t && (x == t
            || u.contains_key(x))) || le(u, x, y)),
        is_top(with_top(u, t), t),
        maximals_of(with_top(u, t)) == set![t],
        u.dom().len() > 0 ==> minimals_of(with_top(u, t)) == minimals_of(u),
        u.dom().len() > 0 ==> forall|b: usize| is_bottom(with_top(u, t), b) == is_bottom(u, b),
{
    let w = with_top(u, t);
    assert(w.dom() =~= u.dom().insert(t));
    assert forall|x: usize, y: usize| #[trigger] le(w, x, y) == ((y == t && (x == t
        || u.contains_key(x))) || le(u, x, y)) by {
        if le(u, x, y) {
            assert(x != t);
        }
    }
    assert forall|x: usize, y: usize| #[trigger] le(w, x, y) implies w.contains_key(y) by {
        if y != t {
            assert(le(u, x, y));
        }
    }
    assert forall|x: usize, y: usize, z: usize|
        #[trigger] le(w, x, y) && #[trigger] le(w, y, z) implies le(w, x, z) by {
        if z != t && y != t {
            assert(le(u, x, y) && le(u, y, z));
        }
        if z != t && y == t {
            assert(le(u, t, z));
        }
        if z == t && y != t {
            assert(le(u, x, y));
        }
    }
    assert forall|x: usize, y: usize| #[trigger] le(w, x, y) && #[trigger] le(w, y, x) implies x
        == y by {
        if x == t && y != t {
            assert(le(u, t, y));
        }
        if y == t && x != t {
            assert(le(u, t, x));
        }
    }
    assert(is_order(w));
    assert(maximals_of(w) =~= set![t]) by {
        assert forall|x: usize| maximals_of(w).contains(x) implies x == t by {
            assert(le(w, x, t));
        }
        assert forall|y: usize| #[trigger] le(w, t, y) implies y == t by {
            if y != t {
                assert(le(u, t, y));
            }
        }
    }
    if u.dom().len() > 0 {
        let a = u.dom().choose();
        assert(u.contains_key(a)) by {
            if !u.contains_key(a) {
                assert(u.dom() =~= Set::empty());
            }
        }
        assert(minimals_of(w) =~= minimals_of(u)) by {
            assert forall|x: usize| minimals_of(w).contains(x) == minimals_of(u).contains(x) by {
                if x == t {
                    assert(le(w, a, t));
                } else if is_minimal(u, x) {
                    assert forall|y: usize| #[trigger] le(w, y, x) implies y == x by {
                        assert(le(u, y, x));
                    }
                } else if is_minimal(w, x) {
                    assert forall|y: usize| #[trigger] le(u, y, x) implies y == x by {
                        assert(le(w, y, x));
                    }
                }
            }
        }
        assert forall|b: usize| is_bottom(w, b) == is_bottom(u, b) by {
            if is_bottom(w, b) {
                assert(le(w, b, a));
                assert forall|x: usize| u.contains_key(x) implies #[trigger] le(u, b, x) by {
                    assert(le(w, b, x));
                }
            }
            if is_bottom(u, b) {
                assert forall|x: usize| w.contains_key(x) implies #[trigger] le(w, b, x) by {
                    if x != t {
                        assert(le(u, b, x));
                    }
                }
            }
        }
    }
}

/// The chain on `0..n` is an order in which `i <= j` exactly as integers.
pub proof fn lemma_chain(n: nat)
    requires
        n <= usize::MAX + 1,
    ensures
        is_order(chain(n)),
        forall|i: usize, j: usize| #[trigger] le(chain(n), i, j) == (i <= j && j < n),
{
    lemma_span_range(n);
    assert forall|i: usize, j: usize| #[trigger] le(chain(n), i, j) == (i <= j && j < n) by {}
}

/// The antichain on `0..n` is an order in which each element is related only to itself.
pub proof fn lemma_antichain(n: nat)
    requires
        n <= usize::MAX + 1,
    ensures
        is_order(antichain(n)),
        forall|i: usize, j: usize| #[trigger] le(antichain(n), i, j) == (i == j && j < n),
{
    lemma_span_range(n);
    assert forall|i: usize, j: usize| #[trigger] le(antichain(n), i, j) == (i == j && j < n) by {}
}

// ---------------------------------------------------------------- covers of constructions

/// The covers of the dual are the covers of the order, reversed.
pub proof fn lemma_dual_covers(u: Order)
    requires
        is_order(u),
    ensures
        forall|x: usize, y: usize| #[trigger] covers(dual(u), x, y) == covers(u, y, x),
{
    lemma_dual(u);
    let d = dual(u);
    assert forall|x: usize, y: usize| #[trigger] covers(d, x, y) == covers(u, y, x) by {
        if covers(d, x, y) {
            assert forall|k: usize| #[trigger] le(u, y, k) && #[trigger] le(u, k, x) implies k == y
                || k == x by {
                assert(le(d, x, k) && le(d, k, y));
            }
        }
        if covers(u, y, x) {
            assert forall|k: usize| #[trigger] le(d, x, k) && #[trigger] le(d, k, y) implies k == x
                || k == y by {
                assert(le(u, y, k) && le(u, k, x));
            }
        }
    }
}

/// In the chain on `0..n`, `j` covers `i` exactly when `j == i + 1 < n`.
pub proof fn lemma_chain_covers(n: nat)
    requires
        n <= usize::MAX + 1,
    ensures
        forall|i: usize, j: usize| #[trigger] covers(chain(n), i, j) == (j == i + 1 && j < n),
{
    lemma_chain(n);
    assert forall|i: usize, j: usize| #[trigger] covers(chain(n), i, j) == (j == i + 1 && j < n) by {
        if covers(chain(n), i, j) && j != i + 1 {
            let k = (i + 1) as usize;
            assert(le(chain(n), i, k) && le(chain(n), k, j));
        }
    }
}

/// Nothing covers anything in an antichain.
pub proof fn lemma_antichain_covers(n: nat)
    requires
        n <= usize::MAX + 1,
    ensures
        forall|i: usize, j: usize| !#[trigger] covers(antichain(n), i, j),
{
    lemma_antichain(n);
}

/// An adjoined bottom is covered by exactly the old minimal elements; other covers stay.
pub proof fn lemma_with_bottom_covers(u: Order, b: usize)
    requires
        is_order(u),
        !u.contains_key(b),
    ensures
        forall|x: usize, y: usize| #[trigger] covers(with_bottom(u, b), x, y) == (if x == b {
            is_minimal(u, y)
        } else {
            covers(u, x, y)
        }),
{
    lemma_with_bottom(u, b);
    let w = with_bottom(u, b);
    assert forall|x: usize, y: usize| #[trigger] covers(w, x, y) == (if x == b {
        is_minimal(u, y)
    } else {
        covers(u, x, y)
    }) by {
        if x == b {
            if covers(w, b, y) {
                assert forall|k: usize| #[trigger] le(u, k, y) implies k == y by {
                    assert(le(w, b, k) && le(w, k, y));
                }
            }
            if is_minimal(u, y) {
                assert forall|k: usize| #[trigger] le(w, b, k) && #[trigger] le(w, k, y) implies k
                    == b || k == y by {
                    if k != b {
                        assert(le(u, k, y));
                    }
                }
            }
        } else {
            if covers(w, x, y) {
                assert(y != b);
                assert forall|k: usize| #[trigger] le(u, x, k) && #[trigger] le(u, k, y) implies k
                    == x || k == y by {
                    assert(le(w, x, k) && le(w, k, y));
                }
            }
            if covers(u, x, y) {
                assert forall|k: usize| #[trigger] le(w, x, k) && #[trigger] le(w, k, y) implies k
                    == x || k == y by {
                    if k == b {
                        assert(le(u, x, b));
                    }
                }
            }
        }
    }
}

/// An adjoined top covers exactly the old maximal elements; other covers stay.
pub proof fn lemma_with_top_covers(u: Order, t: usize)
    requires
        is_order(u),
        !u.contains_key(t),
    ensures
        forall|x: usize, y: usize| #[trigger] covers(with_top(u, t), x, y) == (if y == t {
            is_maximal(u, x)
        } else {
            covers(u, x, y)
        }),
{
    lemma_with_top(u, t);
    let w = with_top(u, t);
    assert forall|x: usize, y: usize| #[trigger] covers(w, x, y) == (if y == t {
        is_maximal(u, x)
    } else {
        covers(u, x, y)
    }) by {
        if y == t {
            if covers(w, x, t) {
                assert forall|k: usize| #[trigger] le(u, x, k) implies k == x by {
                    assert(le(w, x, k) && le(w, k, t));
                }
            }
            if is_maximal(u, x) {
                assert forall|k: usize| #[trigger] le(w, x, k) && #[trigger] le(w, k, t) implies k
                    == x || k == t by {
                    if k != t {
                        assert(le(u, x, k));
                    }
                }
            }
        } else {
            if covers(w, x, y) {
                assert(x != t);
                assert forall|k: usize| #[trigger] le(u, x, k) && #[trigger] le(u, k, y) implies k
                    == x || k == y by {
                    assert(le(w, x, k) && le(w, k, y));
                }
            }
            if covers(u, x, y) {
                assert forall|k: usize| #[trigger] le(w, x, k) && #[trigger] le(w, k, y) implies k
                    == x || k == y by {
                    if k == t {
                        assert(le(u, t, y));
                    }
                }
            }
        }
    }
}

// ---------------------------------------------------------------- checking a relation

/// Everything `u` relates `x` to is an element, `x` is related to itself, and every `y` above
/// `x` is below `x` only when it is `x`, and has everything above it above `x` too.
pub open spec fn row_ok(u: Order, x: usize) -> bool {
    &&& le(u, x, x)
    &&& forall|y: usize| #[trigger] le(u, x, y) ==> u.contains_key(y)
    &&& forall|y: usize| #[trigger] le(u, x, y) && y != x ==> !le(u, y, x)
    &&& forall|y: usize, z: usize| #[trigger] le(u, x, y) && #[trigger] le(u, y, z) ==> le(u, x, z)
}

/// A finite map of up-sets is an order exactly when every one of its rows passes [row_ok].
pub proof fn lemma_order_by_rows(u: Order)
    requires
        u.dom().finite(),
    ensures
        is_order(u) <==> forall|x: usize| #[trigger] u.contains_key(x) ==> row_ok(u, x),
{
    if forall|x: usize| #[trigger] u.contains_key(x) ==> row_ok(u, x) {
        assert forall|x: usize, y: usize| #[trigger] le(u, x, y) && #[trigger] le(u, y, x) implies x
            == y by {
            assert(row_ok(u, x));
        }
        assert forall|x: usize, y: usize, z: usize|
            #[trigger] le(u, x, y) && #[trigger] le(u, y, z) implies le(u, x, z) by {
            assert(row_ok(u, x));
        }
        assert forall|x: usize, y: usize| #[trigger] le(u, x, y) implies u.contains_key(y) by {
            assert(row_ok(u, x));
        }
        assert forall|x: usize| #[trigger] u.contains_key(x) implies le(u, x, x) by {
            assert(row_ok(u, x));
        }
    }
}

} // verus!
