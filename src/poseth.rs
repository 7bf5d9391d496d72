//! A poset encoded as its Hasse diagram: each element mapped to the elements that cover it.

use vstd::prelude::*;
use std::collections::{HashMap, HashSet};

verus! {

use crate::{Elt, MetaData, Poset, PosetError};
use crate::order::{
    Order,
    is_order,
    le,
    covers,
    covers_of,
    is_bottom,
    is_top,
    bottom_info,
    top_info,
    is_minimal,
    is_maximal,
    minimals_of,
    maximals_of,
    dual,
    with_bottom,
    with_top,
    below,
    chain,
    antichain,
    lemma_span,
    lemma_span_range,
    lemma_len_le_span,
    lemma_up_set,
    lemma_maximals_finite,
    lemma_subset_same_len,
    lemma_top_from_maximals,
    lemma_bottom_from_minimals,
    lemma_closed_under_covers,
    lemma_covers_determine_order,
    lemma_maximal_iff_no_cover,
    lemma_minimal_iff_covers_nothing,
    lemma_dual,
    lemma_dual_covers,
    lemma_with_bottom,
    lemma_with_top,
    lemma_with_bottom_covers,
    lemma_with_top_covers,
    lemma_chain,
    lemma_antichain,
    lemma_chain_covers,
    lemma_antichain_covers,
};
use crate::posetg::{BiPaGraph, PosetG, graph_order, is_poset_graph};
use crate::sets::{keys_of, elems_of, key_span, only_member};

broadcast use vstd::std_specs::hash::group_hash_axioms;

/// Each element mapped to the elements that cover it.
pub type Hasse = HashMap<usize, HashSet<usize>>;

/// A representation of a poset encoded as a Hasse diagram: `h[x]` holds every `y` that covers
/// `x`. The order it is the diagram of is kept alongside as a ghost value.
pub struct PosetH {
    pub md: MetaData,
    pub h: Hasse,
    pub rel: Ghost<Order>,
}

/// The transitive reduction of a graph payload: for each `i`, the `j` above `i` with no third
/// element between them.
pub(crate) fn reduce(g: &BiPaGraph) -> (r: Hasse)
    requires
        is_order(graph_order(g@)),
    ensures
        graph_order(r@) == covers_of(graph_order(g@)),
{
    let ghost u = graph_order(g@);
    proof {
        assert(u.dom() =~= g@.dom());
    }
    let ks = keys_of(g);
    let mut h: Hasse = HashMap::new();
    for a in 0..ks.len()
        invariant
            u == graph_order(g@),
            is_order(u),
            ks@.to_set() == u.dom(),
            h@.dom() == Set::new(|x: usize| exists|j: int| 0 <= j < a && ks@[j] == x),
            forall|x: usize| #[trigger] h@.contains_key(x) ==> h@[x]@ == covers_of(u)[x],
    {
        let i = ks[a];
        assert(ks@.to_set().contains(i)) by {
            assert(ks@.contains(i));
        }
        let up = g.get(&i).unwrap();
        proof {
            lemma_up_set(u, i);
        }
        let above = elems_of(up);
        let mut s: HashSet<usize> = HashSet::new();
        for c in 0..above.len()
            invariant
                u == graph_order(g@),
                is_order(u),
                u.contains_key(i),
                up@ == u[i],
                above@.to_set() == u[i],
                s@ == Set::new(|y: usize| exists|j: int| 0 <= j < c && above@[j] == y).filter(
                    |y: usize| covers(u, i, y),
                ),
        {
            let j = above[c];
            assert(above@.to_set().contains(j)) by {
                assert(above@.contains(j));
            }
            let mut direct = j != i;
            for d in 0..above.len()
                invariant
                    u == graph_order(g@),
                    is_order(u),
                    u.contains_key(i),
                    above@.to_set() == u[i],
                    le(u, i, j),
                    direct == (j != i && forall|e: int|
                        0 <= e < d ==> !(#[trigger] above@[e] != i && above@[e] != j && le(
                            u,
                            above@[e],
                            j,
                        ))),
            {
                let k = above[d];
                assert(above@.to_set().contains(k)) by {
                    assert(above@.contains(k));
                }
                assert(le(u, i, k));
                if k != i && k != j && g.get(&k).unwrap().contains(&j) {
                    direct = false;
                }
            }
            proof {
                if direct {
                    assert forall|k: usize| #[trigger] le(u, i, k) && #[trigger] le(u, k, j) implies k
                        == i || k == j by {
                        assert(above@.to_set().contains(k));
                        let e = choose|e: int| 0 <= e < above@.len() && above@[e] == k;
                    }
                } else if j != i {
                    let e = choose|e: int|
                        0 <= e < above@.len() && #[trigger] above@[e] != i && above@[e] != j && le(
                            u,
                            above@[e],
                            j,
                        );
                    assert(above@.contains(above@[e]));
                    assert(le(u, i, above@[e]));
                }
            }
            if direct {
                s.insert(j);
            }
            proof {
                assert(s@ =~= Set::new(|y: usize| exists|jj: int| 0 <= jj < c + 1 && above@[jj] == y)
                    .filter(|y: usize| covers(u, i, y)));
            }
        }
        proof {
            assert(s@ =~= covers_of(u)[i]) by {
                assert forall|y: usize| covers_of(u)[i].contains(y) implies s@.contains(y) by {
                    assert(above@.to_set().contains(y));
                    let j = choose|j: int| 0 <= j < above@.len() && above@[j] == y;
                }
            }
        }
        h.insert(i, s);
        proof {
            assert(h@.dom() =~= Set::new(|x: usize| exists|j: int| 0 <= j < a + 1 && ks@[j] == x));
        }
    }
    proof {
        assert(graph_order(h@) =~= covers_of(u)) by {
            assert forall|x: usize| u.contains_key(x) implies h@.contains_key(x) by {
                assert(ks@.to_set().contains(x));
                let j = choose|j: int| 0 <= j < ks@.len() && ks@[j] == x;
            }
        }
    }
    h
}

impl PosetH {
    /// A poset from a Hasse diagram payload that is the covering relation of some partial
    /// order, with nothing computed.
    pub fn new(h: &Hasse) -> (r: PosetH)
        requires
            exists|u: Order| is_order(u) && covers_of(u) == graph_order(h@),
        ensures
            r.wf(),
            r.h@ == h@,
            r.md.is_fresh(h@.dom().len()),
            forall|u: Order| is_order(u) && #[trigger] covers_of(u) == graph_order(h@) ==> r.order()
                == u,
    {
        let ghost u = choose|u: Order| is_order(u) && covers_of(u) == graph_order(h@);
        let r = PosetH { md: MetaData::new(h.len()), h: h.clone(), rel: Ghost(u) };
        proof {
            assert(u.dom() =~= covers_of(u).dom());
            assert(graph_order(h@).dom() =~= h@.dom());
            assert forall|w: Order| is_order(w) && #[trigger] covers_of(w) == graph_order(h@) implies u
                == w by {
                lemma_covers_determine_order(u, w);
            }
        }
        r
    }

    /// Everything above `x`, found by following covers from `x`.
    pub fn up_set(&self, x: usize) -> (r: HashSet<usize>)
        requires
            self.wf(),
            self.order().contains_key(x),
        ensures
            r@ == self.order()[x],
    {
        let ghost u = self.order();
        proof {
            lemma_up_set(u, x);
        }
        let mut seen: HashSet<usize> = HashSet::new();
        seen.insert(x);
        let mut stack: Vec<usize> = Vec::new();
        stack.push(x);
        proof {
            assert(stack@[0] == x);
            assert(self.h@.dom() =~= u.dom()) by {
                assert(graph_order(self.h@).dom() =~= self.h@.dom());
                assert(covers_of(u).dom() =~= u.dom());
            }
        }
        while stack.len() > 0
            invariant
                self.wf(),
                u == self.order(),
                self.h@.dom() == u.dom(),
                is_order(u),
                u.contains_key(x),
                u[x].finite(),
                seen@.contains(x),
                seen@.subset_of(u[x]),
                forall|j: int| 0 <= j < stack@.len() ==> seen@.contains(#[trigger] stack@[j]),
                forall|v: usize, z: usize|
                    seen@.contains(v) && !stack@.contains(v) && #[trigger] covers(u, v, z)
                        ==> seen@.contains(z),
            decreases u[x].len() - seen@.len(), stack@.len(),
        {
            let ghost stack0 = stack@;
            let v = stack.pop().unwrap();
            let ghost stack1 = stack@;
            proof {
                assert(stack0 == stack1.push(v)) by {
                    assert(stack0 =~= stack1.push(v));
                }
            }
            let ghost seen0 = seen@;
            proof {
                vstd::set_lib::lemma_len_subset(seen@, u[x]);
                assert(seen@.contains(v));
                assert(u.contains_key(v)) by {
                    assert(le(u, x, v));
                }
            }
            let cs = elems_of(self.h.get(&v).unwrap());
            proof {
                assert(graph_order(self.h@)[v] == covers_of(u)[v]);
            }
            for c in 0..cs.len()
                invariant
                    self.wf(),
                    u == self.order(),
                    self.h@.dom() == u.dom(),
                    is_order(u),
                    u.contains_key(v),
                    u[x].finite(),
                    seen@.contains(v),
                    seen@.contains(x),
                    le(u, x, v),
                    cs@.to_set() == covers_of(u)[v],
                    seen0.subset_of(seen@),
                    seen@.subset_of(u[x]),
                    stack1.len() <= stack@.len(),
                    stack@.subrange(0, stack1.len() as int) == stack1,
                    seen@.len() == seen0.len() + (stack@.len() - stack1.len()),
                    forall|j: int| 0 <= j < stack@.len() ==> seen@.contains(#[trigger] stack@[j]),
                    forall|j: int| stack1.len() <= j < stack@.len() ==> !seen0.contains(
                        #[trigger] stack@[j],
                    ),
                    forall|j: int| 0 <= j < c ==> seen@.contains(#[trigger] cs@[j]),
                    forall|y: usize| seen@.contains(y) && !seen0.contains(y) ==> stack@.contains(y),
            {
                let z = cs[c];
                assert(cs@.to_set().contains(z)) by {
                    assert(cs@.contains(z));
                }
                if !seen.contains(&z) {
                    proof {
                        assert(covers(u, v, z));
                        assert(le(u, x, z));
                    }
                    let ghost st = stack@;
                    seen.insert(z);
                    stack.push(z);
                    proof {
                        assert(stack@.subrange(0, stack1.len() as int) =~= stack1);
                        assert(stack@[stack@.len() - 1] == z);
                        assert forall|y: usize| seen@.contains(y) && !seen0.contains(y) implies stack@.contains(y) by {
                            if y != z {
                                assert(st.contains(y));
                                let j = choose|j: int| 0 <= j < st.len() && st[j] == y;
                                assert(stack@[j] == y);
                            }
                        }
                    }
                }
            }
            proof {
                vstd::set_lib::lemma_len_subset(seen@, u[x]);
                assert forall|w: usize, z: usize|
                    seen@.contains(w) && !stack@.contains(w) && #[trigger] covers(u, w, z)
                        implies seen@.contains(z) by {
                    if w == v {
                        assert(covers_of(u)[v].contains(z));
                        assert(cs@.to_set().contains(z));
                        let j = choose|j: int| 0 <= j < cs@.len() && cs@[j] == z;
                    } else {
                        assert(!stack1.contains(w)) by {
                            if stack1.contains(w) {
                                let j = choose|j: int| 0 <= j < stack1.len() && stack1[j] == w;
                                assert(stack@[j] == w);
                            }
                        }
                        assert(seen0.contains(w));
                        assert(!stack0.contains(w)) by {
                            if stack0.contains(w) {
                                let j = choose|j: int| 0 <= j < stack0.len() && stack0[j] == w;
                                if j < stack1.len() {
                                    assert(stack1[j] == w);
                                }
                            }
                        }
                    }
                }
            }
        }
        proof {
            lemma_closed_under_covers(u, x, seen@);
            assert forall|y: usize| u[x].contains(y) implies seen@.contains(y) by {
                assert(le(u, x, y));
            }
            assert(seen@ =~= u[x]);
        }
        seen
    }

    /// The full order as a graph payload: each element mapped to its up-set.
    pub(crate) fn closure(&self) -> (r: BiPaGraph)
        requires
            self.wf(),
        ensures
            graph_order(r@) == self.order(),
    {
        let ghost u = self.order();
        proof {
            assert(u.dom() =~= covers_of(u).dom());
            assert(u.dom() =~= self.h@.dom()) by {
                assert(graph_order(self.h@).dom() =~= self.h@.dom());
            }
        }
        let ks = keys_of(&self.h);
        let mut g: BiPaGraph = HashMap::new();
        for a in 0..ks.len()
            invariant
                self.wf(),
                u == self.order(),
                self.h@.dom() == u.dom(),
                ks@.to_set() == u.dom(),
                g@.dom() == Set::new(|x: usize| exists|j: int| 0 <= j < a && ks@[j] == x),
                forall|x: usize| #[trigger] g@.contains_key(x) ==> g@[x]@ == u[x],
        {
            let i = ks[a];
            assert(ks@.to_set().contains(i)) by {
                assert(ks@.contains(i));
            }
            let s = self.up_set(i);
            g.insert(i, s);
            proof {
                assert(g@.dom() =~= Set::new(|x: usize| exists|j: int| 0 <= j < a + 1 && ks@[j] == x));
            }
        }
        proof {
            assert(graph_order(g@) =~= u) by {
                assert forall|x: usize| u.contains_key(x) implies g@.contains_key(x) by {
                    assert(ks@.to_set().contains(x));
                    let j = choose|j: int| 0 <= j < ks@.len() && ks@[j] == x;
                }
            }
        }
        g
    }
}

impl PosetH {
    /// The minimal elements: those that cover nothing.
    fn minimal_set(&self) -> (r: HashSet<usize>)
        requires
            self.wf(),
        ensures
            r@ == minimals_of(self.order()),
    {
        let ghost u = self.order();
        proof {
            assert(u.dom() =~= covers_of(u).dom());
            assert(u.dom() =~= self.h@.dom()) by {
                assert(graph_order(self.h@).dom() =~= self.h@.dom());
            }
        }
        let ks = keys_of(&self.h);
        let mut mins: HashSet<usize> = HashSet::new();
        for a in 0..ks.len()
            invariant
                self.wf(),
                u == self.order(),
                self.h@.dom() == u.dom(),
                ks@.to_set() == u.dom(),
                mins@ == Set::new(|x: usize| exists|j: int| 0 <= j < a && ks@[j] == x).filter(
                    |x: usize| is_minimal(u, x),
                ),
        {
            let k = ks[a];
            assert(ks@.to_set().contains(k)) by {
                assert(ks@.contains(k));
            }
            let mut minimal = true;
            for c in 0..ks.len()
                invariant
                    self.wf(),
                    u == self.order(),
                    self.h@.dom() == u.dom(),
                    ks@.to_set() == u.dom(),
                    minimal == forall|j: int| 0 <= j < c ==> !covers(u, #[trigger] ks@[j], k),
            {
                let i = ks[c];
                assert(ks@.to_set().contains(i)) by {
                    assert(ks@.contains(i));
                }
                proof {
                    assert(graph_order(self.h@)[i] == covers_of(u)[i]);
                }
                if self.h.get(&i).unwrap().contains(&k) {
                    minimal = false;
                }
            }
            proof {
                lemma_minimal_iff_covers_nothing(u, k);
                if minimal {
                    assert forall|y: usize| #[trigger] covers(u, y, k) implies false by {
                        assert(u.contains_key(y));
                        assert(ks@.to_set().contains(y));
                        let j = choose|j: int| 0 <= j < ks@.len() && ks@[j] == y;
                    }
                }
            }
            if minimal {
                mins.insert(k);
            }
            proof {
                assert(mins@ =~= Set::new(|x: usize| exists|j: int| 0 <= j < a + 1 && ks@[j] == x)
                    .filter(|x: usize| is_minimal(u, x)));
            }
        }
        proof {
            assert(mins@ =~= minimals_of(u)) by {
                assert forall|x: usize| minimals_of(u).contains(x) implies mins@.contains(x) by {
                    assert(ks@.to_set().contains(x));
                    let j = choose|j: int| 0 <= j < ks@.len() && ks@[j] == x;
                }
            }
        }
        mins
    }

    /// The maximal elements: those that nothing covers.
    fn maximal_set(&self) -> (r: HashSet<usize>)
        requires
            self.wf(),
        ensures
            r@ == maximals_of(self.order()),
    {
        let ghost u = self.order();
        proof {
            assert(u.dom() =~= covers_of(u).dom());
            assert(u.dom() =~= self.h@.dom()) by {
                assert(graph_order(self.h@).dom() =~= self.h@.dom());
            }
        }
        let ks = keys_of(&self.h);
        let mut maxs: HashSet<usize> = HashSet::new();
        for a in 0..ks.len()
            invariant
                self.wf(),
                u == self.order(),
                self.h@.dom() == u.dom(),
                ks@.to_set() == u.dom(),
                maxs@ == Set::new(|x: usize| exists|j: int| 0 <= j < a && ks@[j] == x).filter(
                    |x: usize| is_maximal(u, x),
                ),
        {
            let k = ks[a];
            assert(ks@.to_set().contains(k)) by {
                assert(ks@.contains(k));
            }
            let cs = self.h.get(&k).unwrap();
            proof {
                assert(graph_order(self.h@)[k] == covers_of(u)[k]);
                lemma_maximal_iff_no_cover(u, k);
                lemma_up_set(u, k);
                assert(cs@.subset_of(u[k]));
                vstd::set_lib::lemma_len_subset(cs@, u[k]);
                if cs@.len() == 0 {
                    assert(cs@ =~= Set::empty()) by {
                        if exists|y: usize| cs@.contains(y) {
                            let y = choose|y: usize| cs@.contains(y);
                            assert(cs@.remove(y).len() + 1 == 0);
                        }
                    }
                }
            }
            if cs.len() == 0 {
                maxs.insert(k);
            }
            proof {
                assert(maxs@ =~= Set::new(|x: usize| exists|j: int| 0 <= j < a + 1 && ks@[j] == x)
                    .filter(|x: usize| is_maximal(u, x)));
            }
        }
        proof {
            assert(maxs@ =~= maximals_of(u)) by {
                assert forall|x: usize| maximals_of(u).contains(x) implies maxs@.contains(x) by {
                    assert(ks@.to_set().contains(x));
                    let j = choose|j: int| 0 <= j < ks@.len() && ks@[j] == x;
                }
            }
        }
        maxs
    }
}

impl Poset for PosetH {
    open spec fn wf(&self) -> bool {
        &&& is_order(self.rel@)
        &&& graph_order(self.h@) == covers_of(self.rel@)
        &&& self.md.describes(self.rel@)
    }

    open spec fn order(&self) -> Order {
        self.rel@
    }

    open spec fn meta(&self) -> MetaData {
        self.md
    }

    fn elements(&self) -> (r: Vec<usize>) {
        let r = keys_of(&self.h);
        proof {
            assert(self.order().dom() =~= covers_of(self.order()).dom());
            assert(graph_order(self.h@).dom() =~= self.h@.dom());
        }
        r
    }

    fn leq(&self, x: usize, y: usize) -> (r: Result<bool, PosetError>) {
        proof {
            assert(self.order().dom() =~= covers_of(self.order()).dom());
            assert(graph_order(self.h@).dom() =~= self.h@.dom());
        }
        if self.h.contains_key(&x) && self.h.contains_key(&y) {
            let s = self.up_set(x);
            Ok(s.contains(&y))
        } else {
            Err(PosetError::IndexOutOfRange)
        }
    }

    fn find_bot(&mut self) {
        let ghost u = self.order();
        let mins = self.minimal_set();
        proof {
            lemma_bottom_from_minimals(u);
            lemma_maximals_finite(u);
        }
        let e = if mins.len() == 1 {
            let b = only_member(&mins);
            Elt::A(b)
        } else {
            proof {
                assert forall|b: usize| !is_bottom(u, b) by {
                    if is_bottom(u, b) {
                        assert(minimals_of(u).len() == 1);
                    }
                }
            }
            Elt::NotPresent
        };
        self.md.bot = Some(e);
    }

    fn find_top(&mut self) {
        self.find_maximals();
        let ghost u = self.order();
        let mx = self.md.maximals.as_ref().unwrap();
        proof {
            lemma_top_from_maximals(u);
            lemma_maximals_finite(u);
        }
        let e = if mx.len() == 1 {
            let t = only_member(mx);
            Elt::A(t)
        } else {
            proof {
                assert forall|t: usize| !is_top(u, t) by {
                    if is_top(u, t) {
                        assert(maximals_of(u).len() == 1);
                    }
                }
            }
            Elt::NotPresent
        };
        self.md.top = Some(e);
    }

    fn find_minimals(&mut self) {
        let mins = self.minimal_set();
        self.md.minimals = Some(mins);
    }

    fn find_maximals(&mut self) {
        let maxs = self.maximal_set();
        self.md.maximals = Some(maxs);
    }

    fn op(&self) -> (r: Self) {
        let ghost u = self.order();
        proof {
            assert(u.dom() =~= covers_of(u).dom());
            assert(u.dom() =~= self.h@.dom()) by {
                assert(graph_order(self.h@).dom() =~= self.h@.dom());
            }
            lemma_dual(u);
            lemma_dual_covers(u);
        }
        let ks = keys_of(&self.h);
        let mut h: Hasse = HashMap::new();
        for a in 0..ks.len()
            invariant
                self.wf(),
                u == self.order(),
                self.h@.dom() == u.dom(),
                ks@.to_set() == u.dom(),
                h@.dom() == Set::new(|x: usize| exists|j: int| 0 <= j < a && ks@[j] == x),
                forall|x: usize| #[trigger] h@.contains_key(x) ==> h@[x]@ == covers_of(dual(u))[x],
                forall|x: usize, y: usize| #[trigger] covers(dual(u), x, y) == covers(u, y, x),
                dual(u).dom() == u.dom(),
        {
            let i = ks[a];
            assert(ks@.to_set().contains(i)) by {
                assert(ks@.contains(i));
            }
            let mut s: HashSet<usize> = HashSet::new();
            for c in 0..ks.len()
                invariant
                    self.wf(),
                    u == self.order(),
                    self.h@.dom() == u.dom(),
                    ks@.to_set() == u.dom(),
                    s@ == Set::new(|y: usize| exists|j: int| 0 <= j < c && ks@[j] == y).filter(
                        |y: usize| covers(u, y, i),
                    ),
            {
                let j = ks[c];
                assert(ks@.to_set().contains(j)) by {
                    assert(ks@.contains(j));
                }
                proof {
                    assert(graph_order(self.h@)[j] == covers_of(u)[j]);
                }
                if self.h.get(&j).unwrap().contains(&i) {
                    s.insert(j);
                }
                proof {
                    assert(s@ =~= Set::new(|y: usize| exists|jj: int| 0 <= jj < c + 1 && ks@[jj] == y)
                        .filter(|y: usize| covers(u, y, i)));
                }
            }
            proof {
                assert(s@ =~= covers_of(dual(u))[i]) by {
                    assert forall|y: usize| covers_of(dual(u))[i].contains(y) implies s@.contains(y) by {
                        assert(covers(u, y, i));
                        assert(ks@.to_set().contains(y));
                        let j = choose|j: int| 0 <= j < ks@.len() && ks@[j] == y;
                    }
                }
            }
            h.insert(i, s);
            proof {
                assert(h@.dom() =~= Set::new(|x: usize| exists|j: int| 0 <= j < a + 1 && ks@[j] == x));
            }
        }
        proof {
            assert(graph_order(h@) =~= covers_of(dual(u))) by {
                assert forall|x: usize| u.contains_key(x) implies h@.contains_key(x) by {
                    assert(ks@.to_set().contains(x));
                    let j = choose|j: int| 0 <= j < ks@.len() && ks@[j] == x;
                }
            }
        }
        PosetH::new(&h)
    }

    fn new_chain(n: usize) -> (r: Self) {
        proof {
            lemma_chain(n as nat);
            lemma_chain_covers(n as nat);
            lemma_span_range(n as nat);
        }
        let mut h: Hasse = HashMap::new();
        for i in 0..n
            invariant
                h@.dom() == below(i as nat),
                forall|k: usize| #[trigger] h@.contains_key(k) ==> h@[k]@ == covers_of(
                    chain(n as nat),
                )[k],
                forall|x: usize, y: usize| #[trigger] covers(chain(n as nat), x, y) == (y == x + 1
                    && y < n),
        {
            let mut s: HashSet<usize> = HashSet::new();
            if i + 1 < n {
                s.insert(i + 1);
            }
            proof {
                assert(s@ =~= covers_of(chain(n as nat))[i]);
            }
            h.insert(i, s);
            proof {
                assert(h@.dom() =~= below((i + 1) as nat));
            }
        }
        proof {
            assert(graph_order(h@) =~= covers_of(chain(n as nat)));
        }
        PosetH::new(&h)
    }

    fn new_antichain(n: usize) -> (r: Self) {
        proof {
            lemma_antichain(n as nat);
            lemma_antichain_covers(n as nat);
            lemma_span_range(n as nat);
        }
        let mut h: Hasse = HashMap::new();
        for i in 0..n
            invariant
                h@.dom() == below(i as nat),
                forall|k: usize| #[trigger] h@.contains_key(k) ==> h@[k]@ == covers_of(
                    antichain(n as nat),
                )[k],
                forall|x: usize, y: usize| !#[trigger] covers(antichain(n as nat), x, y),
        {
            let s: HashSet<usize> = HashSet::new();
            proof {
                assert(s@ =~= covers_of(antichain(n as nat))[i]);
            }
            h.insert(i, s);
            proof {
                assert(h@.dom() =~= below((i + 1) as nat));
            }
        }
        proof {
            assert(graph_order(h@) =~= covers_of(antichain(n as nat)));
        }
        PosetH::new(&h)
    }

    fn adjoin_bot(&mut self) {
        let ghost u = self.order();
        proof {
            assert(u.dom() =~= covers_of(u).dom());
            assert(u.dom() =~= self.h@.dom()) by {
                assert(graph_order(self.h@).dom() =~= self.h@.dom());
            }
        }
        let b = key_span(&self.h);
        proof {
            lemma_span(u.dom());
            lemma_len_le_span(u.dom());
            lemma_with_bottom(u, b);
            lemma_with_bottom_covers(u, b);
        }
        let ghost w = with_bottom(u, b);
        let mins = self.minimal_set();
        let n = self.md.n;
        let ghost h0 = self.h@;
        proof {
            assert(graph_order(h0) == covers_of(u));
        }
        self.h.insert(b, mins);
        self.rel = Ghost(w);
        let mut m1: HashSet<usize> = HashSet::new();
        m1.insert(b);
        self.md.bot = Some(Elt::A(b));
        self.md.minimals = Some(m1);
        if n == 0 {
            self.md.top = None;
            self.md.maximals = None;
        }
        self.md.n = n + 1;
        proof {
            assert(graph_order(self.h@) =~= covers_of(w)) by {
                assert(graph_order(self.h@).dom() =~= covers_of(w).dom()) by {
                    assert(h0.dom() =~= u.dom()) by {
                        assert(graph_order(h0).dom() =~= h0.dom());
                        assert(covers_of(u).dom() =~= u.dom());
                    }
                }
                assert forall|x: usize| #[trigger] covers_of(w).contains_key(x) implies graph_order(
                    self.h@,
                )[x] =~= covers_of(w)[x] by {
                    if x != b {
                        assert(u.contains_key(x));
                        assert(self.h@[x] == h0[x]);
                        assert(covers_of(u)[x] == graph_order(h0)[x]);
                        assert forall|y: usize| covers_of(w)[x].contains(y) == covers_of(u)[x].contains(y) by {
                            assert(covers(w, x, y) == covers(u, x, y));
                        }
                    } else {
                        assert forall|y: usize| covers_of(w)[b].contains(y) == minimals_of(u).contains(y) by {
                            assert(covers(w, b, y) == is_minimal(u, y));
                        }
                    }
                }
            }
            assert(m1@ =~= set![b]);
            assert(bottom_info(w, Elt::A(b)));
            if n > 0 {
                match self.md.top {
                    Some(e) => {
                        match e {
                            Elt::A(t) => assert(is_top(w, t)),
                            Elt::NotPresent => {
                                assert forall|t: usize| !is_top(w, t) by {
                                    assert(!is_top(u, t));
                                }
                            },
                        }
                    },
                    None => {},
                }
            }
        }
    }

    fn adjoin_top(&mut self) {
        let ghost u = self.order();
        proof {
            assert(u.dom() =~= covers_of(u).dom());
            assert(u.dom() =~= self.h@.dom()) by {
                assert(graph_order(self.h@).dom() =~= self.h@.dom());
            }
        }
        let t = key_span(&self.h);
        proof {
            lemma_span(u.dom());
            lemma_len_le_span(u.dom());
            lemma_with_top(u, t);
            lemma_with_top_covers(u, t);
        }
        let ghost w = with_top(u, t);
        let maxs = self.maximal_set();
        let ms = elems_of(&maxs);
        let ghost md0 = self.md;
        let ghost h0 = self.h@;
        for a in 0..ms.len()
            invariant
                self.md == md0,
                is_order(u),
                graph_order(h0) == covers_of(u),
                ms@.to_set() == maximals_of(u),
                ms@.no_duplicates(),
                self.h@.dom() == h0.dom(),
                forall|x: usize| #[trigger] self.h@.contains_key(x) ==> self.h@[x]@ == (if exists|
                    j: int,
                | 0 <= j < a && ms@[j] == x {
                    h0[x]@.insert(t)
                } else {
                    h0[x]@
                }),
        {
            let k = ms[a];
            assert(ms@.to_set().contains(k)) by {
                assert(ms@.contains(k));
            }
            let ghost before = self.h@;
            assert(h0.contains_key(k)) by {
                assert(graph_order(h0).contains_key(k));
            }
            let mut s = self.h.remove(&k).unwrap();
            s.insert(t);
            self.h.insert(k, s);
            proof {
                assert(self.h@.dom() =~= h0.dom());
                assert forall|x: usize| #[trigger] self.h@.contains_key(x) implies self.h@[x]@ == (
                if exists|j: int| 0 <= j < a + 1 && ms@[j] == x {
                    h0[x]@.insert(t)
                } else {
                    h0[x]@
                }) by {
                    if x == k {
                        assert(ms@[a as int] == x);
                        assert(!exists|j: int| 0 <= j < a && ms@[j] == x);
                    } else {
                        assert(before.contains_key(x));
                        if exists|j: int| 0 <= j < a + 1 && ms@[j] == x {
                            let j = choose|j: int| 0 <= j < a + 1 && ms@[j] == x;
                            assert(j != a);
                        }
                    }
                }
            }
        }
        let st: HashSet<usize> = HashSet::new();
        self.h.insert(t, st);
        self.rel = Ghost(w);
        let n = self.md.n;
        let mut m1: HashSet<usize> = HashSet::new();
        m1.insert(t);
        self.md.top = Some(Elt::A(t));
        self.md.maximals = Some(m1);
        if n == 0 {
            self.md.bot = None;
            self.md.minimals = None;
        }
        self.md.n = n + 1;
        proof {
            let ghost h1 = self.h@;
            assert(h0.dom() =~= u.dom()) by {
                assert(graph_order(h0).dom() =~= h0.dom());
                assert(covers_of(u).dom() =~= u.dom());
            }
            assert(graph_order(self.h@) =~= covers_of(w)) by {
                assert(graph_order(self.h@).dom() =~= covers_of(w).dom());
                assert forall|x: usize| #[trigger] covers_of(w).contains_key(x) implies graph_order(
                    self.h@,
                )[x] =~= covers_of(w)[x] by {
                    if x != t {
                        assert(u.contains_key(x));
                        assert(graph_order(h0)[x] == covers_of(u)[x]);
                        let in_ms = exists|j: int| 0 <= j < ms@.len() && ms@[j] == x;
                        assert(in_ms == is_maximal(u, x)) by {
                            if in_ms {
                                let j = choose|j: int| 0 <= j < ms@.len() && ms@[j] == x;
                                assert(ms@.contains(x));
                                assert(ms@.to_set().contains(x));
                            }
                            if is_maximal(u, x) {
                                assert(maximals_of(u).contains(x));
                                assert(ms@.to_set().contains(x));
                            }
                        }
                        assert forall|y: usize| covers_of(w)[x].contains(y) == self.h@[x]@.contains(y) by {
                            assert(covers(w, x, y) == (if y == t {
                                is_maximal(u, x)
                            } else {
                                covers(u, x, y)
                            }));
                        }
                    } else {
                        assert forall|y: usize| !covers_of(w)[t].contains(y) by {
                            assert(covers(w, t, y) == (if y == t {
                                is_maximal(u, t)
                            } else {
                                covers(u, t, y)
                            }));
                        }
                    }
                }
            }
            assert(m1@ =~= set![t]);
            assert(top_info(w, Elt::A(t)));
            if n > 0 {
                match self.md.bot {
                    Some(e) => {
                        match e {
                            Elt::A(b) => assert(is_bottom(w, b)),
                            Elt::NotPresent => {
                                assert forall|b: usize| !is_bottom(w, b) by {
                                    assert(!is_bottom(u, b));
                                }
                            },
                        }
                    },
                    None => {},
                }
            }
        }
    }

    fn sub(&self, s_0: &HashSet<usize>) -> (r: Result<Self, PosetError>) {
        let g = self.closure();
        let p = PosetG::new(&g);
        match p.sub(s_0) {
            Ok(q) => {
                let h = reduce(&q.g);
                proof {
                    assert(graph_order(q.g@) == q.order());
                    vstd::set_lib::lemma_len_subset(s_0@, self.order().dom());
                }
                let r = PosetH::new(&h);
                proof {
                    assert(h@.dom() =~= s_0@) by {
                        assert(graph_order(h@).dom() =~= h@.dom());
                        assert(covers_of(q.order()).dom() =~= q.order().dom());
                    }
                }
                Ok(r)
            },
            Err(e) => Err(e),
        }
    }
}

/// No edge of `h` leaves `s`.
pub open spec fn edges_closed(h: Map<usize, HashSet<usize>>, s: Set<usize>) -> bool {
    forall|v: usize, z: usize| s.contains(v) && h.contains_key(v) && #[trigger] h[v]@.contains(z)
        ==> s.contains(z)
}

/// Every identifier that `h` names, as a key or in a set.
fn named(h: &Hasse) -> (r: HashSet<usize>)
    ensures
        r@.finite(),
        forall|v: usize| #[trigger] h@.contains_key(v) ==> r@.contains(v) && h@[v]@.subset_of(r@),
{
    let ks = keys_of(h);
    let mut r: HashSet<usize> = HashSet::new();
    for a in 0..ks.len()
        invariant
            ks@.to_set() == h@.dom(),
            forall|j: int| 0 <= j < a ==> r@.contains(#[trigger] ks@[j]) && h@[ks@[j]]@.subset_of(
                r@,
            ),
    {
        let k = ks[a];
        assert(ks@.to_set().contains(k)) by {
            assert(ks@.contains(k));
        }
        let ghost r0 = r@;
        r.insert(k);
        let vs = elems_of(h.get(&k).unwrap());
        for b in 0..vs.len()
            invariant
                r0.insert(k).subset_of(r@),
                vs@.to_set() == h@[k]@,
                forall|e: int| 0 <= e < b ==> r@.contains(#[trigger] vs@[e]),
        {
            r.insert(vs[b]);
        }
        proof {
            assert forall|z: usize| h@[k]@.contains(z) implies r@.contains(z) by {
                assert(vs@.to_set().contains(z));
                let e = choose|e: int| 0 <= e < vs@.len() && vs@[e] == z;
            }
            assert forall|j: int| 0 <= j < a + 1 implies r@.contains(#[trigger] ks@[j])
                && h@[ks@[j]]@.subset_of(r@) by {
                if j < a {
                    assert(r0.contains(ks@[j]));
                    assert(h@[ks@[j]]@.subset_of(r0));
                }
            }
        }
    }
    proof {
        assert forall|v: usize| #[trigger] h@.contains_key(v) implies r@.contains(v) && h@[
            v
        ]@.subset_of(r@) by {
            assert(ks@.to_set().contains(v));
            let j = choose|j: int| 0 <= j < ks@.len() && ks@[j] == v;
        }
    }
    // listing the members shows that there are finitely many
    let _ = elems_of(&r);
    r
}

/// Everything reachable from `x` along the edges of `h`, `x` included: the least set that holds
/// `x` and that no edge leaves.
fn reach(h: &Hasse, all: &HashSet<usize>, x: usize) -> (r: HashSet<usize>)
    requires
        all@.finite(),
        all@.contains(x),
        forall|v: usize| #[trigger] h@.contains_key(v) ==> h@[v]@.subset_of(all@),
    ensures
        r@.contains(x),
        edges_closed(h@, r@),
        forall|s: Set<usize>| #[trigger] edges_closed(h@, s) && s.contains(x) ==> r@.subset_of(s),
{
    let mut seen: HashSet<usize> = HashSet::new();
    seen.insert(x);
    let mut stack: Vec<usize> = Vec::new();
    stack.push(x);
    proof {
        assert(stack@[0] == x);
        assert forall|s: Set<usize>| #[trigger] edges_closed(h@, s) && s.contains(x) implies seen@.subset_of(s) by {
            assert(seen@ =~= set![x]);
        }
    }
    while stack.len() > 0
        invariant
            all@.finite(),
            all@.contains(x),
            forall|v: usize| #[trigger] h@.contains_key(v) ==> h@[v]@.subset_of(all@),
            seen@.contains(x),
            seen@.subset_of(all@),
            forall|j: int| 0 <= j < stack@.len() ==> seen@.contains(#[trigger] stack@[j]),
            forall|v: usize, z: usize|
                seen@.contains(v) && !stack@.contains(v) && h@.contains_key(v)
                    && #[trigger] h@[v]@.contains(z) ==> seen@.contains(z),
            forall|s: Set<usize>| #[trigger] edges_closed(h@, s) && s.contains(x) ==> seen@.subset_of(s),
        decreases all@.len() - seen@.len(), stack@.len(),
    {
        let ghost stack0 = stack@;
        let v = stack.pop().unwrap();
        let ghost stack1 = stack@;
        let ghost seen0 = seen@;
        proof {
            assert(stack0 =~= stack1.push(v));
            assert(seen@.contains(v)) by {
                assert(stack0[stack0.len() - 1] == v);
            }
            vstd::set_lib::lemma_len_subset(seen@, all@);
        }
        match h.get(&v) {
            None => {
                proof {
                    assert forall|w: usize, z: usize|
                        seen@.contains(w) && !stack@.contains(w) && h@.contains_key(w)
                            && #[trigger] h@[w]@.contains(z) implies seen@.contains(z) by {
                        if w != v {
                            assert(!stack0.contains(w)) by {
                                if stack0.contains(w) {
                                    let j = choose|j: int| 0 <= j < stack0.len() && stack0[j] == w;
                                    assert(stack1[j] == w);
                                }
                            }
                        }
                    }
                }
            },
            Some(out) => {
                let cs = elems_of(out);
                for c in 0..cs.len()
                    invariant
                        all@.finite(),
                        all@.contains(x),
                        forall|v: usize| #[trigger] h@.contains_key(v) ==> h@[v]@.subset_of(all@),
                        h@.contains_key(v),
                        out@ == h@[v]@,
                        cs@.to_set() == h@[v]@,
                        seen@.contains(v),
                        seen@.contains(x),
                        seen0.subset_of(seen@),
                        seen@.subset_of(all@),
                        stack1.len() <= stack@.len(),
                        stack@.subrange(0, stack1.len() as int) == stack1,
                        seen@.len() == seen0.len() + (stack@.len() - stack1.len()),
                        forall|j: int| 0 <= j < stack@.len() ==> seen@.contains(#[trigger] stack@[j]),
                        forall|j: int| 0 <= j < c ==> seen@.contains(#[trigger] cs@[j]),
                        forall|y: usize| seen@.contains(y) && !seen0.contains(y) ==> stack@.contains(y),
                        forall|s: Set<usize>| #[trigger] edges_closed(h@, s) && s.contains(x) ==> seen@.subset_of(s),
                {
                    let z = cs[c];
                    assert(cs@.to_set().contains(z)) by {
                        assert(cs@.contains(z));
                    }
                    if !seen.contains(&z) {
                        let ghost st = stack@;
                        let ghost sn = seen@;
                        seen.insert(z);
                        stack.push(z);
                        proof {
                            assert(stack@.subrange(0, stack1.len() as int) =~= stack1);
                            assert(stack@[stack@.len() - 1] == z);
                            assert forall|y: usize| seen@.contains(y) && !seen0.contains(y) implies stack@.contains(y) by {
                                if y != z {
                                    assert(st.contains(y));
                                    let j = choose|j: int| 0 <= j < st.len() && st[j] == y;
                                    assert(stack@[j] == y);
                                }
                            }
                            assert forall|s: Set<usize>| #[trigger] edges_closed(h@, s) && s.contains(x) implies seen@.subset_of(s) by {
                                assert(sn.subset_of(s));
                                assert(s.contains(v));
                                assert(h@[v]@.contains(z));
                            }
                        }
                    }
                }
                proof {
                    assert forall|w: usize, z: usize|
                        seen@.contains(w) && !stack@.contains(w) && h@.contains_key(w)
                            && #[trigger] h@[w]@.contains(z) implies seen@.contains(z) by {
                        if w == v {
                            assert(cs@.to_set().contains(z));
                            let j = choose|j: int| 0 <= j < cs@.len() && cs@[j] == z;
                        } else {
                            assert(!stack1.contains(w)) by {
                                if stack1.contains(w) {
                                    let j = choose|j: int| 0 <= j < stack1.len() && stack1[j] == w;
                                    assert(stack@[j] == w);
                                }
                            }
                            assert(seen0.contains(w));
                            assert(!stack0.contains(w)) by {
                                if stack0.contains(w) {
                                    let j = choose|j: int| 0 <= j < stack0.len() && stack0[j] == w;
                                    if j < stack1.len() {
                                        assert(stack1[j] == w);
                                    }
                                }
                            }
                        }
                    }
                }
            },
        }
        proof {
            vstd::set_lib::lemma_len_subset(seen@, all@);
        }
    }
    proof {
        assert forall|w: usize, z: usize| seen@.contains(w) && h@.contains_key(w)
            && #[trigger] h@[w]@.contains(z) implies seen@.contains(z) by {
            assert(!stack@.contains(w));
        }
    }
    seen
}

/// Whether two payloads map the same keys to the same sets.
fn same_payload(a: &Hasse, b: &Hasse) -> (r: bool)
    ensures
        r == (graph_order(a@) == graph_order(b@)),
{
    proof {
        assert(graph_order(a@).dom() =~= a@.dom());
        assert(graph_order(b@).dom() =~= b@.dom());
    }
    if a.len() != b.len() {
        return false;
    }
    let ks = keys_of(a);
    for i in 0..ks.len()
        invariant
            ks@.to_set() == a@.dom(),
            a@.dom().len() == b@.dom().len(),
            graph_order(a@).dom() == a@.dom(),
            graph_order(b@).dom() == b@.dom(),
            forall|j: int| 0 <= j < i ==> b@.contains_key(#[trigger] ks@[j]) && a@[ks@[j]]@ == b@[ks@[j]]@,
    {
        let k = ks[i];
        assert(ks@.to_set().contains(k)) by {
            assert(ks@.contains(k));
        }
        let sa = a.get(&k).unwrap();
        match b.get(&k) {
            None => {
                return false;
            },
            Some(sb) => {
                if sa.len() != sb.len() {
                    proof {
                        assert(graph_order(a@)[k] != graph_order(b@)[k]);
                    }
                    return false;
                }
                let es = elems_of(sa);
                let _ = elems_of(sb);
                for j in 0..es.len()
                    invariant
                        es@.to_set() == sa@,
                        a@.contains_key(k),
                        b@.contains_key(k),
                        sa@ == a@[k]@,
                        sb@ == b@[k]@,
                        graph_order(a@).dom() == a@.dom(),
                        graph_order(b@).dom() == b@.dom(),
                        forall|e: int| 0 <= e < j ==> sb@.contains(#[trigger] es@[e]),
                {
                    if !sb.contains(&es[j]) {
                        proof {
                            assert(sa@.contains(es@[j as int])) by {
                                assert(es@.contains(es@[j as int]));
                            }
                            assert(graph_order(a@).contains_key(k));
                            assert(graph_order(a@)[k] == sa@);
                            assert(graph_order(b@)[k] == sb@);
                            assert(graph_order(a@)[k] != graph_order(b@)[k]);
                        }
                        return false;
                    }
                }
                proof {
                    assert forall|z: usize| sa@.contains(z) implies sb@.contains(z) by {
                        assert(es@.to_set().contains(z));
                        let e = choose|e: int| 0 <= e < es@.len() && es@[e] == z;
                    }
                    lemma_subset_same_len(sa@, sb@);
                }
            },
        }
    }
    proof {
        assert forall|k: usize| a@.contains_key(k) implies b@.contains_key(k) && a@[k]@ == b@[k]@ by {
            assert(ks@.to_set().contains(k));
            let j = choose|j: int| 0 <= j < ks@.len() && ks@[j] == k;
        }
        lemma_subset_same_len(a@.dom(), b@.dom());
        assert(graph_order(a@) =~= graph_order(b@));
    }
    true
}

impl PosetH {
    /// A poset from a cover payload, or `MalformedRelation` when the payload is not the Hasse
    /// diagram of any partial order: its closure has a cycle or names a stranger, or it holds an
    /// edge that its closure makes redundant.
    pub fn try_new(h: &Hasse) -> (r: Result<PosetH, PosetError>)
        ensures
            match r {
                Ok(p) => p.wf() && p.h@ == h@ && p.md.is_fresh(h@.dom().len()),
                Err(e) => e == PosetError::MalformedRelation && !exists|u: Order|
                    is_order(u) && #[trigger] covers_of(u) == graph_order(h@),
            },
    {
        let all = named(h);
        let ks = keys_of(h);
        let mut g: BiPaGraph = HashMap::new();
        for a in 0..ks.len()
            invariant
                all@.finite(),
                forall|v: usize| #[trigger] h@.contains_key(v) ==> all@.contains(v) && h@[v]@.subset_of(all@),
                ks@.to_set() == h@.dom(),
                g@.dom() == Set::new(|x: usize| exists|j: int| 0 <= j < a && ks@[j] == x),
                forall|x: usize| #[trigger] g@.contains_key(x) ==> {
                    &&& g@[x]@.contains(x)
                    &&& edges_closed(h@, g@[x]@)
                    &&& forall|s: Set<usize>| #[trigger] edges_closed(h@, s) && s.contains(x) ==> g@[x]@.subset_of(s)
                },
        {
            let x = ks[a];
            assert(ks@.to_set().contains(x)) by {
                assert(ks@.contains(x));
            }
            let s = reach(h, &all, x);
            g.insert(x, s);
            proof {
                assert(g@.dom() =~= Set::new(|y: usize| exists|j: int| 0 <= j < a + 1 && ks@[j] == y));
            }
        }
        proof {
            assert(g@.dom() =~= h@.dom()) by {
                assert forall|x: usize| h@.contains_key(x) implies g@.contains_key(x) by {
                    assert(ks@.to_set().contains(x));
                    let j = choose|j: int| 0 <= j < ks@.len() && ks@[j] == x;
                }
                assert forall|x: usize| g@.contains_key(x) implies h@.contains_key(x) by {
                    let j = choose|j: int| 0 <= j < ks@.len() && ks@[j] == x;
                    assert(ks@.contains(x));
                }
            }
            if exists|u: Order| is_order(u) && #[trigger] covers_of(u) == graph_order(h@) {
                let u = choose|u: Order| is_order(u) && #[trigger] covers_of(u) == graph_order(h@);
                lemma_closure_is_order(h@, g@, u);
            }
        }
        if !is_poset_graph(&g) {
            return Err(PosetError::MalformedRelation);
        }
        let r = reduce(&g);
        if !same_payload(&r, h) {
            return Err(PosetError::MalformedRelation);
        }
        Ok(PosetH::new(h))
    }
}

/// Where `h` is the Hasse diagram of `u`, the least edge-closed sets around each element are
/// its up-sets.
proof fn lemma_closure_is_order(
    h: Map<usize, HashSet<usize>>,
    g: Map<usize, HashSet<usize>>,
    u: Order,
)
    requires
        is_order(u),
        covers_of(u) == graph_order(h),
        g.dom() == h.dom(),
        forall|x: usize| #[trigger] g.contains_key(x) ==> {
            &&& g[x]@.contains(x)
            &&& edges_closed(h, g[x]@)
            &&& forall|s: Set<usize>| #[trigger] edges_closed(h, s) && s.contains(x) ==> g[x]@.subset_of(s)
        },
    ensures
        graph_order(g) == u,
{
    assert(covers_of(u).dom() =~= u.dom());
    assert(graph_order(h).dom() =~= h.dom());
    assert forall|x: usize| #[trigger] u.contains_key(x) implies g[x]@ =~= u[x] by {
        assert(g.contains_key(x));
        let r = g[x]@;
        assert forall|a: usize, b: usize| r.contains(a) && #[trigger] covers(u, a, b) implies r.contains(b) by {
            assert(u.contains_key(a));
            assert(covers_of(u)[a].contains(b));
            assert(graph_order(h)[a] == h[a]@);
        }
        assert(le(u, x, x));
        lemma_closed_under_covers(u, x, r);
        assert(edges_closed(h, u[x])) by {
            assert forall|v: usize, z: usize| u[x].contains(v) && h.contains_key(v)
                && #[trigger] h[v]@.contains(z) implies u[x].contains(z) by {
                assert(graph_order(h)[v] == h[v]@);
                assert(covers_of(u)[v].contains(z));
                assert(covers(u, v, z));
                assert(le(u, x, v));
            }
        }
        assert(u[x].contains(x));
        assert(r.subset_of(u[x]));
        assert forall|y: usize| u[x].contains(y) implies r.contains(y) by {
            assert(le(u, x, y));
        }
    }
    assert(graph_order(g) =~= u);
}

} // verus!
