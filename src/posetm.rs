//! A poset encoded as a square boolean matrix: `m[i][j]` holds exactly when `i <= j`.
//!
//! Row and column `i` stand for element `i` when `m[i][i]` holds; a row with a false diagonal
//! is an identifier that is not an element (as after taking a sub-poset) and is false
//! throughout, as is its column. The last row is always an element, so the side of the matrix
//! is one past the largest element.

use vstd::prelude::*;
use std::collections::HashSet;

verus! {

use crate::{Elt, MetaData, Poset, PosetError};
use crate::order::{
    Order,
    is_order,
    le,
    is_bottom,
    is_top,
    bottom_info,
    top_info,
    is_minimal,
    is_maximal,
    minimals_of,
    maximals_of,
    dual,
    restrict,
    with_bottom,
    with_top,
    below,
    chain,
    antichain,
    span_of,
    lemma_span,
    lemma_span_unique,
    lemma_span_range,
    lemma_len_le_span,
    lemma_maximals_finite,
    lemma_top_from_maximals,
    lemma_dual,
    lemma_restrict,
    lemma_with_bottom,
    lemma_with_top,
    lemma_chain,
    lemma_antichain,
};
use crate::sets::{elems_of, set_span, only_member};

broadcast use vstd::std_specs::hash::group_hash_axioms;

/// Rows of booleans.
pub type BoolMatrix = Vec<Vec<bool>>;

/// The contents of a matrix payload.
pub open spec fn rows(m: Seq<Vec<bool>>) -> Seq<Seq<bool>> {
    m.map_values(|r: Vec<bool>| r@)
}

/// The order that a matrix denotes: the elements are the indices with a true diagonal.
pub open spec fn matrix_order(a: Seq<Seq<bool>>) -> Order {
    Map::new(
        |i: usize| i < a.len() && a[i as int][i as int],
        |i: usize| Set::new(|j: usize| j < a.len() && a[i as int][j as int]),
    )
}

/// `a` is square, true only between elements, and its last index is an element.
pub open spec fn is_matrix(a: Seq<Seq<bool>>) -> bool {
    &&& a.len() <= usize::MAX
    &&& forall|i: int| 0 <= i < a.len() ==> #[trigger] a[i].len() == a.len()
    &&& forall|i: int, j: int|
        0 <= i < a.len() && 0 <= j < a.len() && #[trigger] a[i][j] ==> a[i][i] && a[j][j]
    &&& a.len() == 0 || a[a.len() - 1][a.len() - 1]
}

/// The matrix of an order whose elements lie below `d`.
pub open spec fn matrix_of(u: Order, d: nat) -> Seq<Seq<bool>> {
    Seq::new(d, |i: int| Seq::new(d, |j: int| le(u, i as usize, j as usize)))
}

/// A matrix denotes an order with finitely many elements, one past the largest of which is
/// its side.
pub proof fn lemma_matrix_span(a: Seq<Seq<bool>>)
    requires
        is_matrix(a),
    ensures
        matrix_order(a).dom().finite(),
        matrix_order(a).dom().subset_of(below(a.len())),
        span_of(matrix_order(a).dom()) == a.len(),
{
    let dom = matrix_order(a).dom();
    lemma_span_range(a.len());
    assert(dom.subset_of(below(a.len())));
    vstd::set_lib::lemma_len_subset(dom, below(a.len()));
    if a.len() > 0 {
        assert(dom.contains((a.len() - 1) as usize));
    }
    lemma_span_unique(dom, a.len());
}

/// Writing an order as the matrix of its span gives a matrix that denotes it.
pub proof fn lemma_matrix_of(u: Order)
    requires
        is_order(u),
        span_of(u.dom()) <= usize::MAX,
    ensures
        is_matrix(matrix_of(u, span_of(u.dom()))),
        matrix_order(matrix_of(u, span_of(u.dom()))) == u,
{
    lemma_span(u.dom());
    let d = span_of(u.dom());
    let a = matrix_of(u, d);
    assert forall|i: int, j: int|
        0 <= i < a.len() && 0 <= j < a.len() && #[trigger] a[i][j] implies a[i][i] && a[j][j] by {
        assert(le(u, i as usize, j as usize));
        assert(le(u, i as usize, i as usize));
        assert(le(u, j as usize, j as usize));
    }
    if d > 0 {
        assert(u.contains_key((d - 1) as usize));
        assert(le(u, (d - 1) as usize, (d - 1) as usize));
    }
    assert(matrix_order(a) =~= u) by {
        assert forall|i: usize| u.contains_key(i) implies matrix_order(a).contains_key(i) by {
            assert(le(u, i, i));
        }
        assert forall|i: usize| #[trigger] matrix_order(a).contains_key(i) implies matrix_order(
            a,
        )[i] =~= u[i] by {
            assert forall|j: usize| u[i].contains(j) implies j < d by {
                assert(le(u, i, j));
            }
        }
    }
}

/// A representation of a poset encoded as a matrix taking values in the boolean truth values.
#[derive(PartialEq, Debug)]
pub struct PosetM {
    pub md: MetaData,
    pub m: BoolMatrix,
}

/// The `d` by `d` matrix whose entry at `(i, j)` is `f(i, j)`.
pub(crate) fn tabulate<F: Fn(usize, usize) -> bool>(d: usize, f: F) -> (r: BoolMatrix)
    requires
        forall|i: usize, j: usize| i < d && j < d ==> #[trigger] f.requires((i, j)),
    ensures
        r@.len() == d,
        forall|i: int| 0 <= i < d ==> #[trigger] r@[i]@.len() == d,
        forall|i: int, j: int|
            0 <= i < d && 0 <= j < d ==> f.ensures((i as usize, j as usize), #[trigger] r@[i]@[j]),
{
    let mut r: BoolMatrix = Vec::new();
    for i in 0..d
        invariant
            forall|i: usize, j: usize| i < d && j < d ==> #[trigger] f.requires((i, j)),
            r@.len() == i,
            forall|a: int| 0 <= a < i ==> #[trigger] r@[a]@.len() == d,
            forall|a: int, b: int|
                0 <= a < i && 0 <= b < d ==> f.ensures((a as usize, b as usize), #[trigger] r@[a]@[b]),
    {
        let mut row: Vec<bool> = Vec::new();
        for j in 0..d
            invariant
                forall|i: usize, j: usize| i < d && j < d ==> #[trigger] f.requires((i, j)),
                i < d,
                row@.len() == j,
                forall|b: int| 0 <= b < j ==> f.ensures((i, b as usize), #[trigger] row@[b]),
        {
            let x = f(i, j);
            row.push(x);
        }
        r.push(row);
    }
    r
}

/// The indices below `k` whose diagonal holds.
pub open spec fn diag_below(a: Seq<Seq<bool>>, k: nat) -> Set<usize> {
    Set::new(|x: usize| x < k && a[x as int][x as int])
}

impl PosetM {
    /// A poset from a matrix payload that is already a partial order, with nothing computed.
    pub fn new(m: &BoolMatrix) -> (r: PosetM)
        requires
            is_matrix(rows(m@)),
            is_order(matrix_order(rows(m@))),
        ensures
            r.wf(),
            rows(r.m@) == rows(m@),
            r.md.is_fresh(matrix_order(rows(m@)).dom().len()),
    {
        let ghost a = rows(m@);
        let d = m.len();
        proof {
            assert forall|i: usize| i < d implies #[trigger] m@[i as int]@.len() == d by {
                assert(a[i as int].len() == d);
            }
        }
        let c = tabulate(
            d,
            |i: usize, j: usize| -> (b: bool)
                requires
                    d > i && d > j,
                    m@[i as int]@.len() == d,
                ensures
                    b == m@[i as int]@[j as int]
                { m[i][j] },
        );
        proof {
            assert forall|i: usize| i < d implies #[trigger] m@[i as int]@.len() == d by {
                assert(a[i as int].len() == d);
            }
            assert(rows(c@) =~= a) by {
                assert forall|i: int| 0 <= i < d implies #[trigger] rows(c@)[i] =~= a[i] by {
                    assert forall|j: int| 0 <= j < d implies rows(c@)[i][j] == a[i][j] by {
                        assert(c@[i]@[j] == m@[i]@[j]);
                    }
                }
            }
        }
        let n = count_elements(&c);
        PosetM { md: MetaData::new(n), m: c }
    }
}

/// The number of elements of a matrix payload.
fn count_elements(m: &BoolMatrix) -> (n: usize)
    requires
        is_matrix(rows(m@)),
    ensures
        n == matrix_order(rows(m@)).dom().len(),
{
    let ghost a = rows(m@);
    let d = m.len();
    let mut n: usize = 0;
    proof {
        assert(diag_below(a, 0) =~= Set::empty());
    }
    for i in 0..d
        invariant
            a == rows(m@),
            is_matrix(a),
            d == a.len(),
            diag_below(a, i as nat).finite(),
            n == diag_below(a, i as nat).len(),
            n <= i,
    {
        proof {
            assert(a[i as int] == m@[i as int]@);
            if a[i as int][i as int] {
                assert(diag_below(a, (i + 1) as nat) =~= diag_below(a, i as nat).insert(i));
            } else {
                assert(diag_below(a, (i + 1) as nat) =~= diag_below(a, i as nat));
            }
        }
        if m[i][i] {
            n = n + 1;
        }
    }
    proof {
        assert(diag_below(a, d as nat) =~= matrix_order(a).dom());
    }
    n
}

impl Poset for PosetM {
    open spec fn wf(&self) -> bool {
        &&& is_matrix(rows(self.m@))
        &&& is_order(self.order())
        &&& self.md.describes(self.order())
    }

    open spec fn order(&self) -> Order {
        matrix_order(rows(self.m@))
    }

    open spec fn meta(&self) -> MetaData {
        self.md
    }

    fn elements(&self) -> (r: Vec<usize>) {
        let ghost a = rows(self.m@);
        let d = self.m.len();
        let mut r: Vec<usize> = Vec::new();
        for i in 0..d
            invariant
                a == rows(self.m@),
                is_matrix(a),
                d == a.len(),
                r@.to_set() == diag_below(a, i as nat),
                forall|x: int, y: int| 0 <= x < y < r@.len() ==> r@[x] < r@[y],
                forall|x: int| 0 <= x < r@.len() ==> r@[x] < i,
        {
            proof {
                assert(a[i as int] == self.m@[i as int]@);
            }
            let ghost r0 = r@;
            let present = self.m[i][i];
            if present {
                r.push(i);
            }
            proof {
                assert(r@.to_set() =~= diag_below(a, (i + 1) as nat)) by {
                    assert forall|x: usize| diag_below(a, (i + 1) as nat).contains(x) implies r@.to_set().contains(x) by {
                        if x < i {
                            assert(r0.to_set().contains(x));
                            let j = choose|j: int| 0 <= j < r0.len() && r0[j] == x;
                            assert(r@[j] == x);
                            assert(r@.contains(x));
                        } else {
                            assert(r@[r@.len() - 1] == i);
                            assert(r@.contains(x));
                        }
                    }
                    assert forall|x: usize| r@.to_set().contains(x) implies diag_below(a, (i + 1) as nat).contains(x) by {
                        let j = choose|j: int| 0 <= j < r@.len() && r@[j] == x;
                        if j < r0.len() {
                            assert(r0[j] == x);
                            assert(r0.contains(x));
                            assert(r0.to_set().contains(x));
                        } else {
                            assert(present && x == i);
                        }
                    }
                }
            }
        }
        proof {
            assert(diag_below(a, d as nat) =~= self.order().dom());
            assert(r@.no_duplicates()) by {
                assert forall|x: int, y: int| 0 <= x < r@.len() && 0 <= y < r@.len() && x != y implies r@[x] != r@[y] by {
                    if x < y {
                        assert(r@[x] < r@[y]);
                    } else {
                        assert(r@[y] < r@[x]);
                    }
                }
            }
        }
        r
    }

    fn leq(&self, x: usize, y: usize) -> (r: Result<bool, PosetError>) {
        let ghost a = rows(self.m@);
        let d = self.m.len();
        if x < d && y < d {
            proof {
                assert(a[x as int] == self.m@[x as int]@);
                assert(a[y as int] == self.m@[y as int]@);
            }
            if self.m[x][x] && self.m[y][y] {
                return Ok(self.m[x][y]);
            }
        }
        Err(PosetError::IndexOutOfRange)
    }

    fn find_bot(&mut self) {
        let ghost u = self.order();
        let ghost a = rows(self.m@);
        let d = self.m.len();
        let mut found: Option<usize> = None;
        for i in 0..d
            invariant
                u == self.order(),
                a == rows(self.m@),
                is_matrix(a),
                is_order(u),
                d == a.len(),
                found matches Some(b) ==> is_bottom(u, b),
                found is None ==> forall|b: usize| b < i ==> !is_bottom(u, b),
        {
            if found.is_none() {
                proof {
                    assert(a[i as int] == self.m@[i as int]@);
                }
                if self.m[i][i] {
                    let mut all = true;
                    for j in 0..d
                        invariant
                            u == self.order(),
                            a == rows(self.m@),
                            is_matrix(a),
                            d == a.len(),
                            i < d,
                            a[i as int][i as int],
                            all == forall|y: usize| y < j && u.contains_key(y) ==> #[trigger] le(u, i, y),
                    {
                        proof {
                            assert(a[j as int] == self.m@[j as int]@);
                            assert(a[i as int] == self.m@[i as int]@);
                        }
                        proof {
                            assert(u.contains_key(j) == a[j as int][j as int]);
                            assert(le(u, i, j) == a[i as int][j as int]);
                        }
                        let ghost all0 = all;
                        if self.m[j][j] && !self.m[i][j] {
                            all = false;
                        }
                        proof {
                            assert(all == forall|y: usize| y < j + 1 && u.contains_key(y) ==> #[trigger] le(u, i, y)) by {
                                if all {
                                    assert forall|y: usize| y < j + 1 && u.contains_key(y) implies #[trigger] le(u, i, y) by {
                                        if y < j {
                                            assert(all0);
                                        }
                                    }
                                }
                            }
                        }
                    }
                    if all {
                        found = Some(i);
                    }
                }
            }
        }
        let e = match found {
            Some(b) => Elt::A(b),
            None => Elt::NotPresent,
        };
        proof {
            if found is None {
                assert forall|b: usize| !is_bottom(u, b) by {
                    if is_bottom(u, b) {
                        assert(b < d);
                    }
                }
            }
        }
        self.md.bot = Some(e);
    }

    fn find_top(&mut self) {
        self.find_maximals();
        let ghost u = self.order();
        let mx = self.md.maximals.as_ref().unwrap();
        proof {
            lemma_top_from_maximals(u);
            lemma_maximals_finite(u);
        }
        let e = if mx.len() == 1 {
            let t = only_member(mx);
            Elt::A(t)
        } else {
            proof {
                assert forall|t: usize| !is_top(u, t) by {
                    if is_top(u, t) {
                        assert(maximals_of(u).len() == 1);
                    }
                }
            }
            Elt::NotPresent
        };
        self.md.top = Some(e);
    }

    fn find_minimals(&mut self) {
        let ghost u = self.order();
        let ghost a = rows(self.m@);
        let d = self.m.len();
        let mut mins: HashSet<usize> = HashSet::new();
        for i in 0..d
            invariant
                u == self.order(),
                a == rows(self.m@),
                is_matrix(a),
                is_order(u),
                d == a.len(),
                mins@ == Set::new(|x: usize| x < i && is_minimal(u, x)),
        {
            proof {
                assert(a[i as int] == self.m@[i as int]@);
            }
            let mut minimal = self.m[i][i];
            for j in 0..d
                invariant
                    u == self.order(),
                    a == rows(self.m@),
                    is_matrix(a),
                    d == a.len(),
                    i < d,
                    minimal == (a[i as int][i as int] && forall|y: usize| y < j && y != i ==> !#[trigger] le(u, y, i)),
            {
                proof {
                    assert(a[j as int] == self.m@[j as int]@);
                }
                proof {
                    assert(le(u, j, i) == (a[j as int][j as int] && a[j as int][i as int]));
                }
                let ghost minimal0 = minimal;
                if j != i && self.m[j][i] {
                    minimal = false;
                }
                proof {
                    assert(minimal == (a[i as int][i as int] && forall|y: usize| y < j + 1 && y != i ==> !#[trigger] le(u, y, i))) by {
                        if minimal {
                            assert forall|y: usize| y < j + 1 && y != i implies !#[trigger] le(u, y, i) by {
                                if y < j {
                                    assert(minimal0);
                                }
                            }
                        }
                    }
                }
            }
            if minimal {
                mins.insert(i);
            }
            proof {
                assert(mins@ =~= Set::new(|x: usize| x < i + 1 && is_minimal(u, x))) by {
                    if minimal {
                        assert forall|y: usize| #[trigger] le(u, y, i) implies y == i by {
                            assert(y < d);
                        }
                    }
                }
            }
        }
        proof {
            assert(mins@ =~= minimals_of(u));
        }
        self.md.minimals = Some(mins);
    }

    fn find_maximals(&mut self) {
        let ghost u = self.order();
        let ghost a = rows(self.m@);
        let d = self.m.len();
        let mut maxs: HashSet<usize> = HashSet::new();
        for i in 0..d
            invariant
                u == self.order(),
                a == rows(self.m@),
                is_matrix(a),
                is_order(u),
                d == a.len(),
                maxs@ == Set::new(|x: usize| x < i && is_maximal(u, x)),
        {
            proof {
                assert(a[i as int] == self.m@[i as int]@);
            }
            let mut maximal = self.m[i][i];
            for j in 0..d
                invariant
                    u == self.order(),
                    a == rows(self.m@),
                    is_matrix(a),
                    d == a.len(),
                    i < d,
                    maximal == (a[i as int][i as int] && forall|y: usize| y < j && y != i ==> !#[trigger] le(u, i, y)),
            {
                proof {
                    assert(a[i as int] == self.m@[i as int]@);
                }
                proof {
                    assert(le(u, i, j) == (a[i as int][i as int] && a[i as int][j as int]));
                }
                let ghost maximal0 = maximal;
                if j != i && self.m[i][j] {
                    maximal = false;
                }
                proof {
                    assert(maximal == (a[i as int][i as int] && forall|y: usize| y < j + 1 && y != i ==> !#[trigger] le(u, i, y))) by {
                        if maximal {
                            assert forall|y: usize| y < j + 1 && y != i implies !#[trigger] le(u, i, y) by {
                                if y < j {
                                    assert(maximal0);
                                }
                            }
                        }
                    }
                }
            }
            if maximal {
                maxs.insert(i);
            }
            proof {
                assert(maxs@ =~= Set::new(|x: usize| x < i + 1 && is_maximal(u, x))) by {
                    if maximal {
                        assert forall|y: usize| #[trigger] le(u, i, y) implies y == i by {
                            assert(y < d);
                        }
                    }
                }
            }
        }
        proof {
            assert(maxs@ =~= maximals_of(u));
        }
        self.md.maximals = Some(maxs);
    }

    fn op(&self) -> (r: Self) {
        let ghost u = self.order();
        let ghost a = rows(self.m@);
        let d = self.m.len();
        proof {
            lemma_dual(u);
            lemma_matrix_span(a);
            assert forall|j: usize| j < d implies #[trigger] self.m@[j as int]@.len() == d by {
                assert(a[j as int].len() == d);
            }
        }
        let m = &self.m;
        let c = tabulate(
            d,
            |i: usize, j: usize| -> (b: bool)
                requires
                    d > i && d > j,
                    m@[j as int]@.len() == d,
                ensures
                    b == m@[j as int]@[i as int]
                { m[j][i] },
        );
        proof {
            assert forall|j: usize| j < d implies #[trigger] self.m@[j as int]@.len() == d by {
                assert(a[j as int].len() == d);
            }
            assert(span_of(dual(u).dom()) == d);
            lemma_matrix_of(dual(u));
            assert(rows(c@) =~= matrix_of(dual(u), d as nat)) by {
                assert forall|i: int| 0 <= i < d implies #[trigger] rows(c@)[i] =~= matrix_of(dual(u), d as nat)[i] by {
                    assert forall|j: int| 0 <= j < d implies rows(c@)[i][j] == matrix_of(dual(u), d as nat)[i][j] by {
                        assert(c@[i]@[j] == a[j][i]);
                        assert(le(dual(u), i as usize, j as usize) == le(u, j as usize, i as usize));
                    }
                }
            }
        }
        PosetM { md: MetaData::new(self.md.n), m: c }
    }

    fn new_chain(n: usize) -> (r: Self) {
        let c = tabulate(
            n,
            |i: usize, j: usize| -> (b: bool)
                ensures
                    b == (j >= i)
                { j >= i },
        );
        proof {
            lemma_chain(n as nat);
            lemma_span_range(n as nat);
            lemma_matrix_of(chain(n as nat));
            assert(rows(c@) =~= matrix_of(chain(n as nat), n as nat)) by {
                assert forall|i: int| 0 <= i < n implies #[trigger] rows(c@)[i] =~= matrix_of(chain(n as nat), n as nat)[i] by {
                    assert forall|j: int| 0 <= j < n implies rows(c@)[i][j] == matrix_of(chain(n as nat), n as nat)[i][j] by {
                        assert(le(chain(n as nat), i as usize, j as usize) == (i <= j));
                    }
                }
            }
        }
        PosetM { md: MetaData::new(n), m: c }
    }

    fn new_antichain(n: usize) -> (r: Self) {
        let c = tabulate(
            n,
            |i: usize, j: usize| -> (b: bool)
                ensures
                    b == (i == j)
                { i == j },
        );
        proof {
            lemma_antichain(n as nat);
            lemma_span_range(n as nat);
            lemma_matrix_of(antichain(n as nat));
            assert(rows(c@) =~= matrix_of(antichain(n as nat), n as nat)) by {
                assert forall|i: int| 0 <= i < n implies #[trigger] rows(c@)[i] =~= matrix_of(antichain(n as nat), n as nat)[i] by {
                    assert forall|j: int| 0 <= j < n implies rows(c@)[i][j] == matrix_of(antichain(n as nat), n as nat)[i][j] by {
                        assert(le(antichain(n as nat), i as usize, j as usize) == (i == j));
                    }
                }
            }
        }
        PosetM { md: MetaData::new(n), m: c }
    }

    fn adjoin_bot(&mut self) {
        let ghost u = self.order();
        let ghost a = rows(self.m@);
        let d = self.m.len();
        proof {
            lemma_matrix_span(a);
            lemma_span(u.dom());
            lemma_len_le_span(u.dom());
            lemma_with_bottom(u, d);
            assert forall|i: usize| i < d implies #[trigger] self.m@[i as int]@.len() == d by {
                assert(a[i as int].len() == d);
            }
        }
        let ghost w = with_bottom(u, d);
        let m = &self.m;
        let c = tabulate(
            d + 1,
            |i: usize, j: usize| -> (b: bool)
                requires
                    d >= i && d >= j,
                    d > i ==> m@[i as int]@.len() == d,
                    d > j ==> m@[j as int]@.len() == d,
                ensures
                    b == (if d > i && d > j {
                        m@[i as int]@[j as int]
                    } else if i == d && d > j {
                        m@[j as int]@[j as int]
                    } else {
                        i == d && j == d
                    })
                {
                    if d > i && d > j {
                        m[i][j]
                    } else if i == d && d > j {
                        m[j][j]
                    } else {
                        i == d && j == d
                    }
                },
        );
        proof {
            assert forall|i: usize| i < d implies #[trigger] self.m@[i as int]@.len() == d by {
                assert(a[i as int].len() == d);
            }
            lemma_span_unique(w.dom(), (d + 1) as nat);
            lemma_matrix_of(w);
            assert(rows(c@) =~= matrix_of(w, (d + 1) as nat)) by {
                assert forall|i: int| 0 <= i <= d implies #[trigger] rows(c@)[i] =~= matrix_of(w, (d + 1) as nat)[i] by {
                    assert forall|j: int| 0 <= j <= d implies rows(c@)[i][j] == matrix_of(w, (d + 1) as nat)[i][j] by {
                        assert(le(w, i as usize, j as usize) == ((i == d && (j == d || u.contains_key(j as usize))) || le(u, i as usize, j as usize)));
                        if i < d {
                            assert(a[i] == self.m@[i]@);
                        }
                        if j < d {
                            assert(a[j] == self.m@[j]@);
                        }
                    }
                }
            }
        }
        let n = self.md.n;
        self.m = c;
        let mut mins: HashSet<usize> = HashSet::new();
        mins.insert(d);
        self.md.bot = Some(Elt::A(d));
        self.md.minimals = Some(mins);
        if n == 0 {
            self.md.top = None;
            self.md.maximals = None;
        }
        self.md.n = n + 1;
        proof {
            assert(mins@ =~= set![d]);
            assert(bottom_info(w, Elt::A(d)));
            if n > 0 {
                match self.md.top {
                    Some(e) => {
                        match e {
                            Elt::A(t) => assert(is_top(w, t)),
                            Elt::NotPresent => {
                                assert forall|t: usize| !is_top(w, t) by {
                                    assert(!is_top(u, t));
                                }
                            },
                        }
                    },
                    None => {},
                }
            }
        }
    }

    fn adjoin_top(&mut self) {
        let ghost u = self.order();
        let ghost a = rows(self.m@);
        let d = self.m.len();
        proof {
            lemma_matrix_span(a);
            lemma_span(u.dom());
            lemma_len_le_span(u.dom());
            lemma_with_top(u, d);
            assert forall|i: usize| i < d implies #[trigger] self.m@[i as int]@.len() == d by {
                assert(a[i as int].len() == d);
            }
        }
        let ghost w = with_top(u, d);
        let m = &self.m;
        let c = tabulate(
            d + 1,
            |i: usize, j: usize| -> (b: bool)
                requires
                    d >= i && d >= j,
                    d > i ==> m@[i as int]@.len() == d,
                    d > j ==> m@[j as int]@.len() == d,
                ensures
                    b == (if d > i && d > j {
                        m@[i as int]@[j as int]
                    } else if j == d && d > i {
                        m@[i as int]@[i as int]
                    } else {
                        i == d && j == d
                    })
                {
                    if d > i && d > j {
                        m[i][j]
                    } else if j == d && d > i {
                        m[i][i]
                    } else {
                        i == d && j == d
                    }
                },
        );
        proof {
            assert forall|i: usize| i < d implies #[trigger] self.m@[i as int]@.len() == d by {
                assert(a[i as int].len() == d);
            }
            lemma_span_unique(w.dom(), (d + 1) as nat);
            lemma_matrix_of(w);
            assert(rows(c@) =~= matrix_of(w, (d + 1) as nat)) by {
                assert forall|i: int| 0 <= i <= d implies #[trigger] rows(c@)[i] =~= matrix_of(w, (d + 1) as nat)[i] by {
                    assert forall|j: int| 0 <= j <= d implies rows(c@)[i][j] == matrix_of(w, (d + 1) as nat)[i][j] by {
                        assert(le(w, i as usize, j as usize) == ((j == d && (i == d || u.contains_key(i as usize))) || le(u, i as usize, j as usize)));
                        if i < d {
                            assert(a[i] == self.m@[i]@);
                        }
                        if j < d {
                            assert(a[j] == self.m@[j]@);
                        }
                    }
                }
            }
        }
        let n = self.md.n;
        self.m = c;
        let mut maxs: HashSet<usize> = HashSet::new();
        maxs.insert(d);
        self.md.top = Some(Elt::A(d));
        self.md.maximals = Some(maxs);
        if n == 0 {
            self.md.bot = None;
            self.md.minimals = None;
        }
        self.md.n = n + 1;
        proof {
            assert(maxs@ =~= set![d]);
            assert(top_info(w, Elt::A(d)));
            if n > 0 {
                match self.md.bot {
                    Some(e) => {
                        match e {
                            Elt::A(b) => assert(is_bottom(w, b)),
                            Elt::NotPresent => {
                                assert forall|b: usize| !is_bottom(w, b) by {
                                    assert(!is_bottom(u, b));
                                }
                            },
                        }
                    },
                    None => {},
                }
            }
        }
    }

    fn sub(&self, s_0: &HashSet<usize>) -> (r: Result<Self, PosetError>) {
        let ghost u = self.order();
        let ghost a = rows(self.m@);
        let d = self.m.len();
        let es = elems_of(s_0);
        for k in 0..es.len()
            invariant
                u == self.order(),
                a == rows(self.m@),
                is_matrix(a),
                d == a.len(),
                es@.to_set() == s_0@,
                forall|j: int| 0 <= j < k ==> u.contains_key(#[trigger] es@[j]),
        {
            let x = es[k];
            let present = if x < d {
                proof {
                    assert(a[x as int] == self.m@[x as int]@);
                }
                self.m[x][x]
            } else {
                false
            };
            if !present {
                proof {
                    assert(es@.to_set().contains(x)) by {
                        assert(es@.contains(x));
                    }
                }
                return Err(PosetError::IndexOutOfRange);
            }
        }
        proof {
            assert forall|x: usize| s_0@.contains(x) implies u.contains_key(x) by {
                assert(es@.to_set().contains(x));
                let j = choose|j: int| 0 <= j < es@.len() && es@[j] == x;
            }
            lemma_restrict(u, s_0@);
            lemma_matrix_span(a);
            vstd::set_lib::lemma_len_subset(s_0@, u.dom());
            lemma_span(s_0@);
            if span_of(s_0@) > d {
                assert(s_0@.contains((span_of(s_0@) - 1) as usize));
            }
        }
        let ghost w = restrict(u, s_0@);
        let e = set_span(s_0);
        proof {
            assert forall|i: usize| i < e implies #[trigger] self.m@[i as int]@.len() == d by {
                assert(a[i as int].len() == d);
            }
        }
        let m = &self.m;
        let c = tabulate(
            e,
            |i: usize, j: usize| -> (b: bool)
                requires
                    e > i && e > j,
                    d >= e,
                    m@[i as int]@.len() == d,
                ensures
                    b == (m@[i as int]@[j as int] && s_0@.contains(i) && s_0@.contains(j))
                { m[i][j] && s_0.contains(&i) && s_0.contains(&j) },
        );
        proof {
            assert forall|i: usize| i < e implies #[trigger] self.m@[i as int]@.len() == d by {
                assert(a[i as int].len() == d);
            }
            lemma_matrix_of(w);
            assert(rows(c@) =~= matrix_of(w, e as nat)) by {
                assert forall|i: int| 0 <= i < e implies #[trigger] rows(c@)[i] =~= matrix_of(w, e as nat)[i] by {
                    assert forall|j: int| 0 <= j < e implies rows(c@)[i][j] == matrix_of(w, e as nat)[i][j] by {
                        assert(a[i] == self.m@[i]@);
                    }
                }
            }
        }
        Ok(PosetM { md: MetaData::new(s_0.len()), m: c })
    }
}

/// Entry `(i, j)` of `a` is consistent with a partial order: when it holds, `i` and `j` are
/// elements, `j` is not also below `i` unless equal, and everything above `j` is above `i`.
pub open spec fn cell_ok(a: Seq<Seq<bool>>, i: int, j: int) -> bool {
    a[i][j] ==> {
        &&& a[i][i]
        &&& a[j][j]
        &&& i != j ==> !a[j][i]
        &&& forall|k: int| 0 <= k < a.len() && #[trigger] a[j][k] ==> a[i][k]
    }
}

/// A square matrix whose last index is an element is a partial order exactly when all its
/// entries pass [cell_ok].
pub proof fn lemma_matrix_by_cells(a: Seq<Seq<bool>>)
    requires
        a.len() <= usize::MAX,
        forall|i: int| 0 <= i < a.len() ==> #[trigger] a[i].len() == a.len(),
        a.len() == 0 || a[a.len() - 1][a.len() - 1],
    ensures
        (is_matrix(a) && is_order(matrix_order(a))) <==> forall|i: int, j: int|
            0 <= i < a.len() && 0 <= j < a.len() ==> #[trigger] cell_ok(a, i, j),
{
    let u = matrix_order(a);
    let d = a.len();
    assert forall|x: usize, y: usize| #[trigger] le(u, x, y) == (x < d && y < d && a[x as int][x as int] && a[x as int][y as int]) by {}
    if forall|i: int, j: int| 0 <= i < d && 0 <= j < d ==> #[trigger] cell_ok(a, i, j) {
        assert forall|i: int, j: int|
            0 <= i < d && 0 <= j < d && #[trigger] a[i][j] implies a[i][i] && a[j][j] by {
            assert(cell_ok(a, i, j));
        }
        lemma_matrix_span(a);
        assert forall|x: usize, y: usize| #[trigger] le(u, x, y) implies u.contains_key(y) by {
            assert(cell_ok(a, x as int, y as int));
        }
        assert forall|x: usize, y: usize| #[trigger] le(u, x, y) && #[trigger] le(u, y, x) implies x
            == y by {
            assert(cell_ok(a, x as int, y as int));
        }
        assert forall|x: usize, y: usize, z: usize|
            #[trigger] le(u, x, y) && #[trigger] le(u, y, z) implies le(u, x, z) by {
            assert(cell_ok(a, x as int, y as int));
            assert(a[y as int][z as int]);
        }
    }
    if is_matrix(a) && is_order(u) {
        assert forall|i: int, j: int| 0 <= i < d && 0 <= j < d implies #[trigger] cell_ok(a, i, j) by {
            if a[i][j] {
                assert(le(u, i as usize, j as usize));
                if i != j && a[j][i] {
                    assert(le(u, j as usize, i as usize));
                }
                assert forall|k: int| 0 <= k < d && #[trigger] a[j][k] implies a[i][k] by {
                    assert(le(u, j as usize, k as usize));
                }
            }
        }
    }
}

/// Whether a matrix payload is square, true only between elements, ends with an element, and
/// is a partial order.
pub fn is_poset_matrix(m: &BoolMatrix) -> (r: bool)
    ensures
        r == (is_matrix(rows(m@)) && is_order(matrix_order(rows(m@)))),
{
    let ghost a = rows(m@);
    let d = m.len();
    for i in 0..d
        invariant
            a == rows(m@),
            d == a.len(),
            forall|j: int| 0 <= j < i ==> #[trigger] a[j].len() == d,
    {
        proof {
            assert(a[i as int] == m@[i as int]@);
        }
        if m[i].len() != d {
            return false;
        }
    }
    proof {
        if d > 0 {
            assert(a[d - 1] == m@[d - 1]@);
        }
    }
    if d > 0 && !m[d - 1][d - 1] {
        return false;
    }
    proof {
        lemma_matrix_by_cells(a);
    }
    for i in 0..d
        invariant
            a == rows(m@),
            d == a.len(),
            forall|j: int| 0 <= j < d ==> #[trigger] a[j].len() == d,
            (is_matrix(a) && is_order(matrix_order(a))) <==> forall|i: int, j: int|
                0 <= i < d && 0 <= j < d ==> #[trigger] cell_ok(a, i, j),
            forall|x: int, y: int| 0 <= x < i && 0 <= y < d ==> #[trigger] cell_ok(a, x, y),
    {
        for j in 0..d
            invariant
                a == rows(m@),
                d == a.len(),
                i < d,
                forall|j: int| 0 <= j < d ==> #[trigger] a[j].len() == d,
                (is_matrix(a) && is_order(matrix_order(a))) <==> forall|i: int, j: int|
                    0 <= i < d && 0 <= j < d ==> #[trigger] cell_ok(a, i, j),
                forall|x: int, y: int| 0 <= x < i && 0 <= y < d ==> #[trigger] cell_ok(a, x, y),
                forall|y: int| 0 <= y < j ==> #[trigger] cell_ok(a, i as int, y),
        {
            proof {
                assert(a[i as int] == m@[i as int]@);
                assert(a[j as int] == m@[j as int]@);
            }
            if m[i][j] {
                if !(m[i][i] && m[j][j]) {
                    proof {
                        assert(!cell_ok(a, i as int, j as int));
                    }
                    return false;
                }
                if i != j && m[j][i] {
                    proof {
                        assert(!cell_ok(a, i as int, j as int));
                    }
                    return false;
                }
                for k in 0..d
                    invariant
                        a == rows(m@),
                        d == a.len(),
                        i < d,
                        j < d,
                        a[i as int][j as int],
                        forall|j: int| 0 <= j < d ==> #[trigger] a[j].len() == d,
                        (is_matrix(a) && is_order(matrix_order(a))) <==> forall|i: int, j: int|
                            0 <= i < d && 0 <= j < d ==> #[trigger] cell_ok(a, i, j),
                        forall|c: int| 0 <= c < k && #[trigger] a[j as int][c] ==> a[i as int][c],
                {
                    proof {
                        assert(a[i as int] == m@[i as int]@);
                        assert(a[j as int] == m@[j as int]@);
                    }
                    if m[j][k] && !m[i][k] {
                        proof {
                            assert(a[i as int][j as int]);
                            assert(!cell_ok(a, i as int, j as int));
                        }
                        return false;
                    }
                }
            }
            proof {
                assert(cell_ok(a, i as int, j as int));
            }
        }
    }
    true
}

impl PosetM {
    /// A poset from a matrix payload, or `MalformedRelation` when the payload is not the matrix
    /// of a partial order.
    pub fn try_new(m: &BoolMatrix) -> (r: Result<PosetM, PosetError>)
        ensures
            match r {
                Ok(p) => is_matrix(rows(m@)) && is_order(matrix_order(rows(m@))) && p.wf() && rows(
                    p.m@,
                ) == rows(m@) && p.md.is_fresh(matrix_order(rows(m@)).dom().len()),
                Err(e) => e == PosetError::MalformedRelation && !(is_matrix(rows(m@)) && is_order(
                    matrix_order(rows(m@)),
                )),
            },
    {
        if is_poset_matrix(m) {
            Ok(PosetM::new(m))
        } else {
            Err(PosetError::MalformedRelation)
        }
    }
}

} // verus!
