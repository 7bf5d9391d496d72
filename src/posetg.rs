//! A poset encoded as a map from each element to the set of all elements above it, itself
//! included.

use vstd::prelude::*;
use std::collections::{HashMap, HashSet};

verus! {

use crate::{Elt, MetaData, Poset, PosetError};
use crate::order::{
    Order,
    is_order,
    row_ok,
    lemma_order_by_rows,
    le,
    is_bottom,
    is_top,
    bottom_info,
    top_info,
    is_minimal,
    is_maximal,
    minimals_of,
    maximals_of,
    dual,
    restrict,
    with_bottom,
    with_top,
    below,
    chain,
    antichain,
    lemma_span,
    lemma_len_le_span,
    lemma_span_range,
    lemma_up_set,
    lemma_subset_same_len,
    lemma_maximals_finite,
    lemma_top_from_maximals,
    lemma_dual,
    lemma_restrict,
    lemma_with_bottom,
    lemma_with_top,
    lemma_chain,
    lemma_antichain,
};
use crate::sets::{keys_of, elems_of, key_span};

broadcast use vstd::std_specs::hash::group_hash_axioms;

/// Each element mapped to its up-set.
pub type BiPaGraph = HashMap<usize, HashSet<usize>>;

/// The order that a graph payload denotes.
pub open spec fn graph_order(g: Map<usize, HashSet<usize>>) -> Order {
    Map::new(|k: usize| g.contains_key(k), |k: usize| g[k]@)
}

/// A representation of a poset encoded as a directed graph: `g[x]` holds every `y` with
/// `x <= y`, `x` itself included.
#[derive(PartialEq, Debug)]
pub struct PosetG {
    pub md: MetaData,
    pub g: BiPaGraph,
}

impl PosetG {
    /// A poset from a graph payload that is already a partial order, with nothing computed.
    pub fn new(g: &BiPaGraph) -> (r: PosetG)
        requires
            is_order(graph_order(g@)),
        ensures
            r.wf(),
            r.g@ == g@,
            r.md.is_fresh(g@.dom().len()),
    {
        let r = PosetG { md: MetaData::new(g.len()), g: g.clone() };
        proof {
            assert(graph_order(g@).dom() =~= g@.dom());
        }
        r
    }
}

impl Poset for PosetG {
    open spec fn wf(&self) -> bool {
        &&& is_order(self.order())
        &&& self.md.describes(self.order())
    }

    open spec fn order(&self) -> Order {
        graph_order(self.g@)
    }

    open spec fn meta(&self) -> MetaData {
        self.md
    }

    fn elements(&self) -> (r: Vec<usize>) {
        let r = keys_of(&self.g);
        proof {
            assert(self.order().dom() =~= self.g@.dom());
        }
        r
    }

    fn leq(&self, x: usize, y: usize) -> (r: Result<bool, PosetError>) {
        match self.g.get(&x) {
            Some(s) => {
                if self.g.contains_key(&y) {
                    Ok(s.contains(&y))
                } else {
                    Err(PosetError::IndexOutOfRange)
                }
            },
            None => Err(PosetError::IndexOutOfRange),
        }
    }

    fn find_bot(&mut self) {
        let ghost u = self.order();
        proof {
            assert(u.dom() =~= self.g@.dom());
        }
        let ks = keys_of(&self.g);
        let n = self.md.n;
        let mut found: Option<usize> = None;
        for i in 0..ks.len()
            invariant
                u == self.order(),
                is_order(u),
                self.md.n == u.dom().len(),
                n == self.md.n,
                ks@.to_set() == u.dom(),
                found matches Some(b) ==> is_bottom(u, b),
                found is None ==> forall|j: int| 0 <= j < i ==> !is_bottom(u, #[trigger] ks@[j]),
        {
            if found.is_none() {
                let k = ks[i];
                assert(ks@.to_set().contains(k)) by {
                    assert(ks@.contains(k));
                }
                let s = self.g.get(&k).unwrap();
                proof {
                    assert(s@ == u[k]);
                    lemma_up_set(u, k);
                }
                if s.len() == n {
                    proof {
                        lemma_subset_same_len(u[k], u.dom());
                    }
                    found = Some(k);
                } else {
                    proof {
                        if is_bottom(u, k) {
                            assert forall|x: usize| u.dom().contains(x) implies u[k].contains(x) by {
                                assert(le(u, k, x));
                            }
                            assert(u[k] =~= u.dom());
                        }
                    }
                }
            }
        }
        let e = match found {
            Some(b) => Elt::A(b),
            None => Elt::NotPresent,
        };
        proof {
            if found is None {
                assert forall|b: usize| !is_bottom(u, b) by {
                    if is_bottom(u, b) {
                        assert(ks@.to_set().contains(b));
                        let j = choose|j: int| 0 <= j < ks@.len() && ks@[j] == b;
                        assert(!is_bottom(u, ks@[j]));
                    }
                }
            }
        }
        self.md.bot = Some(e);
    }

    fn find_top(&mut self) {
        self.find_maximals();
        let ghost u = self.order();
        let mx = self.md.maximals.as_ref().unwrap();
        let e = if mx.len() == 1 {
            let v = elems_of(mx);
            let t = v[0];
            proof {
                assert(v@.to_set().contains(t)) by {
                    assert(v@.contains(t));
                }
                lemma_maximals_finite(u);
                assert(maximals_of(u).remove(t).len() == 0);
                assert(maximals_of(u).remove(t) =~= Set::empty()) by {
                    if exists|y: usize| maximals_of(u).remove(t).contains(y) {
                        let y = choose|y: usize| maximals_of(u).remove(t).contains(y);
                        assert(maximals_of(u).remove(t).remove(y).len() + 1 == 0);
                    }
                }
                assert(maximals_of(u) =~= set![t]);
                lemma_top_from_maximals(u);
            }
            Elt::A(t)
        } else {
            proof {
                lemma_top_from_maximals(u);
                assert forall|t: usize| !is_top(u, t) by {
                    if is_top(u, t) {
                        assert(maximals_of(u).len() == 1);
                    }
                }
            }
            Elt::NotPresent
        };
        self.md.top = Some(e);
    }

    fn find_minimals(&mut self) {
        let ghost u = self.order();
        proof {
            assert(u.dom() =~= self.g@.dom());
        }
        let ks = keys_of(&self.g);
        let mut mins: HashSet<usize> = HashSet::new();
        for a in 0..ks.len()
            invariant
                u == self.order(),
                is_order(u),
                ks@.to_set() == u.dom(),
                ks@.len() == u.dom().len(),
                ks@.no_duplicates(),
                mins@ == Set::new(|x: usize| exists|j: int| 0 <= j < a && ks@[j] == x)
                    .filter(|x: usize| is_minimal(u, x)),
        {
            let k = ks[a];
            assert(ks@.to_set().contains(k)) by {
                assert(ks@.contains(k));
            }
            let mut minimal = true;
            for c in 0..ks.len()
                invariant
                    u == self.order(),
                    is_order(u),
                    ks@.to_set() == u.dom(),
                    u.contains_key(k),
                    minimal == forall|j: int|
                        0 <= j < c ==> !(ks@[j] != k && le(u, #[trigger] ks@[j], k)),
            {
                let i = ks[c];
                assert(ks@.to_set().contains(i)) by {
                    assert(ks@.contains(i));
                }
                let s = self.g.get(&i).unwrap();
                if i != k && s.contains(&k) {
                    minimal = false;
                }
            }
            proof {
                if minimal {
                    assert forall|y: usize| #[trigger] le(u, y, k) implies y == k by {
                        assert(ks@.to_set().contains(y));
                        let j = choose|j: int| 0 <= j < ks@.len() && ks@[j] == y;
                    }
                }
            }
            if minimal {
                mins.insert(k);
            }
            proof {
                assert(mins@ =~= Set::new(|x: usize| exists|j: int| 0 <= j < a + 1 && ks@[j] == x)
                    .filter(|x: usize| is_minimal(u, x)));
            }
        }
        proof {
            assert(mins@ =~= minimals_of(u)) by {
                assert forall|x: usize| minimals_of(u).contains(x) implies mins@.contains(x) by {
                    assert(ks@.to_set().contains(x));
                    let j = choose|j: int| 0 <= j < ks@.len() && ks@[j] == x;
                }
            }
        }
        self.md.minimals = Some(mins);
    }

    fn find_maximals(&mut self) {
        let ghost u = self.order();
        proof {
            assert(u.dom() =~= self.g@.dom());
        }
        let ks = keys_of(&self.g);
        let mut maxs: HashSet<usize> = HashSet::new();
        for a in 0..ks.len()
            invariant
                u == self.order(),
                is_order(u),
                ks@.to_set() == u.dom(),
                maxs@ == Set::new(|x: usize| exists|j: int| 0 <= j < a && ks@[j] == x)
                    .filter(|x: usize| is_maximal(u, x)),
        {
            let k = ks[a];
            assert(ks@.to_set().contains(k)) by {
                assert(ks@.contains(k));
            }
            let s = self.g.get(&k).unwrap();
            proof {
                lemma_up_set(u, k);
                assert(le(u, k, k));
                if is_maximal(u, k) {
                    assert forall|y: usize| u[k].contains(y) implies y == k by {
                        assert(le(u, k, y));
                    }
                    assert(u[k] =~= set![k]);
                }
                if u[k].len() == 1 {
                    assert(u[k].remove(k).len() == 0);
                    assert(u[k].remove(k) =~= Set::empty()) by {
                        if exists|y: usize| u[k].remove(k).contains(y) {
                            let y = choose|y: usize| u[k].remove(k).contains(y);
                            assert(u[k].remove(k).remove(y).len() + 1 == 0);
                        }
                    }
                    assert forall|y: usize| #[trigger] le(u, k, y) implies y == k by {
                        assert(!u[k].remove(k).contains(y));
                    }
                }
            }
            if s.len() == 1 {
                maxs.insert(k);
            }
            proof {
                assert(maxs@ =~= Set::new(|x: usize| exists|j: int| 0 <= j < a + 1 && ks@[j] == x)
                    .filter(|x: usize| is_maximal(u, x)));
            }
        }
        proof {
            assert(maxs@ =~= maximals_of(u)) by {
                assert forall|x: usize| maximals_of(u).contains(x) implies maxs@.contains(x) by {
                    assert(ks@.to_set().contains(x));
                    let j = choose|j: int| 0 <= j < ks@.len() && ks@[j] == x;
                }
            }
        }
        self.md.maximals = Some(maxs);
    }

    fn op(&self) -> (r: Self) {
        let ghost u = self.order();
        proof {
            assert(u.dom() =~= self.g@.dom());
            lemma_dual(u);
        }
        let ks = keys_of(&self.g);
        let mut g: BiPaGraph = HashMap::new();
        for a in 0..ks.len()
            invariant
                u == self.order(),
                is_order(u),
                ks@.to_set() == u.dom(),
                ks@.no_duplicates(),
                g@.dom() == Set::new(|x: usize| exists|j: int| 0 <= j < a && ks@[j] == x),
                forall|x: usize| #[trigger] g@.contains_key(x) ==> g@[x]@ == dual(u)[x],
        {
            let i = ks[a];
            assert(ks@.to_set().contains(i)) by {
                assert(ks@.contains(i));
            }
            let mut s: HashSet<usize> = HashSet::new();
            for c in 0..ks.len()
                invariant
                    u == self.order(),
                    is_order(u),
                    ks@.to_set() == u.dom(),
                    u.contains_key(i),
                    s@ == Set::new(|y: usize| exists|j: int| 0 <= j < c && ks@[j] == y).filter(
                        |y: usize| le(u, y, i),
                    ),
            {
                let j = ks[c];
                assert(ks@.to_set().contains(j)) by {
                    assert(ks@.contains(j));
                }
                if self.g.get(&j).unwrap().contains(&i) {
                    s.insert(j);
                }
                proof {
                    assert(s@ =~= Set::new(|y: usize| exists|jj: int| 0 <= jj < c + 1 && ks@[jj] == y)
                        .filter(|y: usize| le(u, y, i)));
                }
            }
            proof {
                assert(s@ =~= dual(u)[i]) by {
                    assert forall|y: usize| dual(u)[i].contains(y) implies s@.contains(y) by {
                        assert(ks@.to_set().contains(y));
                        let j = choose|j: int| 0 <= j < ks@.len() && ks@[j] == y;
                    }
                }
            }
            g.insert(i, s);
            proof {
                assert(g@.dom() =~= Set::new(|x: usize| exists|j: int| 0 <= j < a + 1 && ks@[j] == x));
            }
        }
        proof {
            assert(graph_order(g@) =~= dual(u)) by {
                assert(g@.dom() =~= u.dom()) by {
                    assert forall|x: usize| u.contains_key(x) implies g@.contains_key(x) by {
                        assert(ks@.to_set().contains(x));
                        let j = choose|j: int| 0 <= j < ks@.len() && ks@[j] == x;
                    }
                }
            }
        }
        PosetG::new(&g)
    }

    fn new_chain(n: usize) -> (r: Self) {
        let mut g: BiPaGraph = HashMap::new();
        for i in 0..n
            invariant
                g@.dom() == below(i as nat),
                forall|k: usize| #[trigger] g@.contains_key(k) ==> g@[k]@ == chain(n as nat)[k],
        {
            let mut s: HashSet<usize> = HashSet::new();
            for j in i..n
                invariant
                    i <= j <= n,
                    s@ == Set::new(|y: usize| i <= y && y < j),
            {
                s.insert(j);
                proof {
                    assert(s@ =~= Set::new(|y: usize| i <= y && y < j + 1));
                }
            }
            proof {
                assert(s@ =~= chain(n as nat)[i]);
            }
            g.insert(i, s);
            proof {
                assert(g@.dom() =~= below((i + 1) as nat));
            }
        }
        proof {
            lemma_span_range(n as nat);
            lemma_chain(n as nat);
            assert(graph_order(g@) =~= chain(n as nat));
        }
        PosetG::new(&g)
    }

    fn new_antichain(n: usize) -> (r: Self) {
        let mut g: BiPaGraph = HashMap::new();
        for i in 0..n
            invariant
                g@.dom() == below(i as nat),
                forall|k: usize| #[trigger] g@.contains_key(k) ==> g@[k]@ == antichain(n as nat)[k],
        {
            let mut s: HashSet<usize> = HashSet::new();
            s.insert(i);
            proof {
                assert(s@ =~= antichain(n as nat)[i]);
            }
            g.insert(i, s);
            proof {
                assert(g@.dom() =~= below((i + 1) as nat));
            }
        }
        proof {
            lemma_span_range(n as nat);
            lemma_antichain(n as nat);
            assert(graph_order(g@) =~= antichain(n as nat));
        }
        PosetG::new(&g)
    }

    fn adjoin_bot(&mut self) {
        let ghost u = self.order();
        proof {
            assert(u.dom() =~= self.g@.dom());
        }
        let b = key_span(&self.g);
        proof {
            assert(u.dom() =~= self.g@.dom());
            lemma_span(u.dom());
            lemma_len_le_span(u.dom());
            lemma_with_bottom(u, b);
        }
        let ks = keys_of(&self.g);
        let mut s: HashSet<usize> = HashSet::new();
        for a in 0..ks.len()
            invariant
                s@ == Set::new(|x: usize| exists|j: int| 0 <= j < a && ks@[j] == x),
        {
            s.insert(ks[a]);
            proof {
                assert(s@ =~= Set::new(|x: usize| exists|j: int| 0 <= j < a + 1 && ks@[j] == x));
            }
        }
        s.insert(b);
        proof {
            assert(s@ =~= u.dom().insert(b)) by {
                assert forall|x: usize| u.dom().contains(x) implies s@.contains(x) by {
                    assert(ks@.to_set().contains(x));
                    let j = choose|j: int| 0 <= j < ks@.len() && ks@[j] == x;
                }
                assert forall|x: usize| s@.contains(x) && x != b implies u.dom().contains(x) by {
                    let j = choose|j: int| 0 <= j < ks@.len() && ks@[j] == x;
                    assert(ks@.contains(x));
                }
            }
        }
        let n = self.md.n;
        self.g.insert(b, s);
        let mut mins: HashSet<usize> = HashSet::new();
        mins.insert(b);
        self.md.bot = Some(Elt::A(b));
        self.md.minimals = Some(mins);
        if n == 0 {
            self.md.top = None;
            self.md.maximals = None;
        }
        self.md.n = n + 1;
        proof {
            let w = with_bottom(u, b);
            assert(self.order() =~= w);
            assert(mins@ =~= set![b]);
            assert(self.md.n == w.dom().len());
            assert(bottom_info(w, Elt::A(b)));
            if n > 0 {
                assert(u.dom().len() > 0);
                match self.md.top {
                    Some(e) => {
                        assert(top_info(u, e));
                        match e {
                            Elt::A(t) => assert(is_top(w, t)),
                            Elt::NotPresent => {
                                assert forall|t: usize| !is_top(w, t) by {
                                    assert(!is_top(u, t));
                                }
                            },
                        }
                    },
                    None => {},
                }
            }
            assert(match self.md.top {
                Some(e) => top_info(w, e),
                None => true,
            });
            assert(match self.md.maximals {
                Some(s) => s@ == maximals_of(w),
                None => true,
            });
        }
    }

    fn adjoin_top(&mut self) {
        let ghost u = self.order();
        proof {
            assert(u.dom() =~= self.g@.dom());
        }
        let t = key_span(&self.g);
        proof {
            assert(u.dom() =~= self.g@.dom());
            lemma_span(u.dom());
            lemma_len_le_span(u.dom());
            lemma_with_top(u, t);
        }
        let ks = keys_of(&self.g);
        let ghost md0 = self.md;
        for a in 0..ks.len()
            invariant
                self.md == md0,
                is_order(u),
                !u.contains_key(t),
                ks@.to_set() == u.dom(),
                ks@.no_duplicates(),
                self.g@.dom() == u.dom(),
                forall|x: usize| #[trigger] self.g@.contains_key(x) ==> self.g@[x]@ == (if exists|
                    j: int,
                | 0 <= j < a && ks@[j] == x {
                    u[x].insert(t)
                } else {
                    u[x]
                }),
        {
            let k = ks[a];
            assert(ks@.to_set().contains(k)) by {
                assert(ks@.contains(k));
            }
            let ghost before = self.g@;
            let mut s = self.g.remove(&k).unwrap();
            s.insert(t);
            self.g.insert(k, s);
            proof {
                assert(self.g@.dom() =~= u.dom());
                assert forall|x: usize| #[trigger] self.g@.contains_key(x) implies self.g@[x]@ == (
                if exists|j: int| 0 <= j < a + 1 && ks@[j] == x {
                    u[x].insert(t)
                } else {
                    u[x]
                }) by {
                    if x == k {
                        assert(ks@[a as int] == x);
                        assert(!exists|j: int| 0 <= j < a && ks@[j] == x);
                    } else {
                        assert(before.contains_key(x));
                        if exists|j: int| 0 <= j < a + 1 && ks@[j] == x {
                            let j = choose|j: int| 0 <= j < a + 1 && ks@[j] == x;
                            assert(j != a);
                        }
                    }
                }
            }
        }
        let mut st: HashSet<usize> = HashSet::new();
        st.insert(t);
        self.g.insert(t, st);
        let n = self.md.n;
        let mut maxs: HashSet<usize> = HashSet::new();
        maxs.insert(t);
        self.md.top = Some(Elt::A(t));
        self.md.maximals = Some(maxs);
        if n == 0 {
            self.md.bot = None;
            self.md.minimals = None;
        }
        self.md.n = n + 1;
        proof {
            assert forall|x: usize| u.contains_key(x) implies exists|j: int|
                0 <= j < ks@.len() && ks@[j] == x by {
                assert(ks@.to_set().contains(x));
            }
            let w = with_top(u, t);
            assert(self.order() =~= w);
            assert(maxs@ =~= set![t]);
            assert(st@ =~= set![t]);
            assert(self.md.n == w.dom().len());
            assert(top_info(w, Elt::A(t)));
            if n > 0 {
                assert(u.dom().len() > 0);
                match self.md.bot {
                    Some(e) => {
                        assert(bottom_info(u, e));
                        match e {
                            Elt::A(b) => assert(is_bottom(w, b)),
                            Elt::NotPresent => {
                                assert forall|b: usize| !is_bottom(w, b) by {
                                    assert(!is_bottom(u, b));
                                }
                            },
                        }
                    },
                    None => {},
                }
            }
            assert(match self.md.bot {
                Some(e) => bottom_info(w, e),
                None => true,
            });
            assert(match self.md.minimals {
                Some(s) => s@ == minimals_of(w),
                None => true,
            });
        }
    }

    fn sub(&self, s_0: &HashSet<usize>) -> (r: Result<Self, PosetError>) {
        let ghost u = self.order();
        proof {
            assert(u.dom() =~= self.g@.dom());
        }
        let es = elems_of(s_0);
        for a in 0..es.len()
            invariant
                u == self.order(),
                es@.to_set() == s_0@,
                forall|j: int| 0 <= j < a ==> u.contains_key(#[trigger] es@[j]),
        {
            if !self.g.contains_key(&es[a]) {
                proof {
                    assert(es@.to_set().contains(es@[a as int])) by {
                        assert(es@.contains(es@[a as int]));
                    }
                }
                return Err(PosetError::IndexOutOfRange);
            }
        }
        proof {
            assert forall|x: usize| s_0@.contains(x) implies u.contains_key(x) by {
                assert(es@.to_set().contains(x));
                let j = choose|j: int| 0 <= j < es@.len() && es@[j] == x;
            }
            lemma_restrict(u, s_0@);
        }
        let ghost w = restrict(u, s_0@);
        let mut g: BiPaGraph = HashMap::new();
        for a in 0..es.len()
            invariant
                u == self.order(),
                is_order(u),
                w == restrict(u, s_0@),
                s_0@.subset_of(u.dom()),
                es@.to_set() == s_0@,
                g@.dom() == Set::new(|x: usize| exists|j: int| 0 <= j < a && es@[j] == x),
                forall|x: usize| #[trigger] g@.contains_key(x) ==> g@[x]@ == w[x],
        {
            let i = es[a];
            assert(es@.to_set().contains(i)) by {
                assert(es@.contains(i));
            }
            let up = self.g.get(&i).unwrap();
            let mut s: HashSet<usize> = HashSet::new();
            for c in 0..es.len()
                invariant
                    es@.to_set() == s_0@,
                    up@ == u[i],
                    s@ == Set::new(|y: usize| exists|j: int| 0 <= j < c && es@[j] == y).filter(
                        |y: usize| u[i].contains(y),
                    ),
            {
                let j = es[c];
                if up.contains(&j) {
                    s.insert(j);
                }
                proof {
                    assert(s@ =~= Set::new(|y: usize| exists|jj: int| 0 <= jj < c + 1 && es@[jj] == y)
                        .filter(|y: usize| u[i].contains(y)));
                }
            }
            proof {
                assert(s@ =~= w[i]) by {
                    assert forall|y: usize| w[i].contains(y) implies s@.contains(y) by {
                        assert(es@.to_set().contains(y));
                        let j = choose|j: int| 0 <= j < es@.len() && es@[j] == y;
                    }
                    assert forall|y: usize| s@.contains(y) implies w[i].contains(y) by {
                        let j = choose|j: int| 0 <= j < es@.len() && es@[j] == y;
                        assert(es@.contains(y));
                    }
                }
            }
            g.insert(i, s);
            proof {
                assert(g@.dom() =~= Set::new(|x: usize| exists|j: int| 0 <= j < a + 1 && es@[j] == x));
            }
        }
        proof {
            assert(g@.dom() =~= s_0@) by {
                assert forall|x: usize| s_0@.contains(x) implies g@.contains_key(x) by {
                    assert(es@.to_set().contains(x));
                    let j = choose|j: int| 0 <= j < es@.len() && es@[j] == x;
                }
                assert forall|x: usize| g@.contains_key(x) implies s_0@.contains(x) by {
                    let j = choose|j: int| 0 <= j < es@.len() && es@[j] == x;
                    assert(es@.contains(x));
                }
            }
            assert(graph_order(g@) =~= w);
        }
        Ok(PosetG::new(&g))
    }
}

/// Whether a graph payload is a partial order: each set holds its own key, names only keys, and
/// is antisymmetric and transitive with the others.
pub fn is_poset_graph(g: &BiPaGraph) -> (r: bool)
    ensures
        r == is_order(graph_order(g@)),
{
    let ghost u = graph_order(g@);
    proof {
        assert(u.dom() =~= g@.dom());
        lemma_order_by_rows(u);
    }
    let ks = keys_of(g);
    for a in 0..ks.len()
        invariant
            u == graph_order(g@),
            u.dom().finite(),
            is_order(u) <==> forall|x: usize| #[trigger] u.contains_key(x) ==> row_ok(u, x),
            ks@.to_set() == u.dom(),
            forall|j: int| 0 <= j < a ==> row_ok(u, #[trigger] ks@[j]),
    {
        let x = ks[a];
        assert(ks@.to_set().contains(x)) by {
            assert(ks@.contains(x));
        }
        let up = g.get(&x).unwrap();
        if !up.contains(&x) {
            return false;
        }
        let ys = elems_of(up);
        for b in 0..ys.len()
            invariant
                u == graph_order(g@),
                u.dom().finite(),
                u.contains_key(x),
                up@ == u[x],
                ys@.to_set() == u[x],
                forall|e: int| 0 <= e < b ==> {
                    let y = #[trigger] ys@[e];
                    &&& u.contains_key(y)
                    &&& y != x ==> !le(u, y, x)
                    &&& forall|z: usize| #[trigger] le(u, y, z) ==> le(u, x, z)
                },
        {
            let y = ys[b];
            assert(ys@.to_set().contains(y)) by {
                assert(ys@.contains(y));
            }
            match g.get(&y) {
                None => {
                    proof {
                        assert(le(u, x, y));
                        assert(!row_ok(u, x));
                    }
                    return false;
                },
                Some(uy) => {
                    if y != x && uy.contains(&x) {
                        proof {
                            assert(le(u, x, y) && le(u, y, x));
                            assert(!row_ok(u, x));
                        }
                        return false;
                    }
                    let zs = elems_of(uy);
                    for c in 0..zs.len()
                        invariant
                            u == graph_order(g@),
                            u.contains_key(x),
                            u.contains_key(y),
                            up@ == u[x],
                            uy@ == u[y],
                            zs@.to_set() == u[y],
                            le(u, x, y),
                            forall|e: int| 0 <= e < c ==> le(u, x, #[trigger] zs@[e]),
                    {
                        let z = zs[c];
                        if !up.contains(&z) {
                            proof {
                                assert(zs@.to_set().contains(z)) by {
                                    assert(zs@.contains(z));
                                }
                                assert(le(u, y, z));
                                assert(!row_ok(u, x));
                            }
                            return false;
                        }
                    }
                    proof {
                        assert forall|z: usize| #[trigger] le(u, y, z) implies le(u, x, z) by {
                            assert(zs@.to_set().contains(z));
                            let e = choose|e: int| 0 <= e < zs@.len() && zs@[e] == z;
                        }
                    }
                },
            }
        }
        proof {
            assert forall|y: usize| #[trigger] le(u, x, y) implies u.contains_key(y) && (y != x
                ==> !le(u, y, x)) && forall|z: usize| #[trigger] le(u, y, z) ==> le(u, x, z) by {
                assert(ys@.to_set().contains(y));
                let e = choose|e: int| 0 <= e < ys@.len() && ys@[e] == y;
            }
            assert(row_ok(u, x));
        }
    }
    proof {
        assert forall|x: usize| #[trigger] u.contains_key(x) implies row_ok(u, x) by {
            assert(ks@.to_set().contains(x));
            let j = choose|j: int| 0 <= j < ks@.len() && ks@[j] == x;
        }
    }
    true
}

impl PosetG {
    /// A poset from a graph payload, or `MalformedRelation` when the payload is not a partial
    /// order.
    pub fn try_new(g: &BiPaGraph) -> (r: Result<PosetG, PosetError>)
        ensures
            match r {
                Ok(p) => is_order(graph_order(g@)) && p.wf() && p.g@ == g@ && p.md.is_fresh(
                    g@.dom().len(),
                ),
                Err(e) => e == PosetError::MalformedRelation && !is_order(graph_order(g@)),
            },
    {
        if is_poset_graph(g) {
            Ok(PosetG::new(g))
        } else {
            Err(PosetError::MalformedRelation)
        }
    }
}

} // verus!
