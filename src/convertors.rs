//! Moving a poset between encodings without changing the order it denotes.

use vstd::prelude::*;
use std::collections::{HashMap, HashSet};

verus! {

use crate::{MetaData, Poset};
use crate::order::{
    is_order,
    le,
    covers_of,
    span_of,
};
use crate::posetg::{BiPaGraph, PosetG, graph_order};
use crate::poseth::{PosetH, reduce};
use crate::posetm::{
    PosetM,
    rows,
    matrix_order,
    matrix_of,
    is_matrix,
    lemma_matrix_of,
    lemma_matrix_span,
    tabulate,
};
use crate::sets::key_span;

broadcast use vstd::std_specs::hash::group_hash_axioms;

/// The graph of a matrix poset: each element mapped to the indices its row holds.
pub fn matrix_to_graph(p: PosetM) -> (r: PosetG)
    requires
        p.wf(),
    ensures
        r.wf(),
        r.order() == p.order(),
        r.md.is_fresh(p.md.n as nat),
{
    let ghost u = p.order();
    let ghost a = rows(p.m@);
    let d = p.m.len();
    let mut g: BiPaGraph = HashMap::new();
    for i in 0..d
        invariant
            u == p.order(),
            a == rows(p.m@),
            is_matrix(a),
            d == a.len(),
            g@.dom() == Set::new(|x: usize| x < i && u.contains_key(x)),
            forall|x: usize| #[trigger] g@.contains_key(x) ==> g@[x]@ == u[x],
    {
        proof {
            assert(a[i as int] == p.m@[i as int]@);
        }
        if p.m[i][i] {
            let mut s: HashSet<usize> = HashSet::new();
            for j in 0..d
                invariant
                    u == p.order(),
                    a == rows(p.m@),
                    is_matrix(a),
                    d == a.len(),
                    i < d,
                    s@ == Set::new(|y: usize| y < j && a[i as int][y as int]),
            {
                proof {
                    assert(a[i as int] == p.m@[i as int]@);
                }
                if p.m[i][j] {
                    s.insert(j);
                }
                proof {
                    assert(s@ =~= Set::new(|y: usize| y < j + 1 && a[i as int][y as int]));
                }
            }
            proof {
                assert(s@ =~= u[i]);
            }
            g.insert(i, s);
        }
        proof {
            assert(g@.dom() =~= Set::new(|x: usize| x < i + 1 && u.contains_key(x)));
        }
    }
    proof {
        assert(graph_order(g@) =~= u);
    }
    PosetG::new(&g)
}

/// The matrix of a graph poset, with one row per identifier up to the largest element.
pub fn graph_to_matrix(p: PosetG) -> (r: PosetM)
    requires
        p.wf(),
        span_of(p.order().dom()) <= usize::MAX,
    ensures
        r.wf(),
        r.order() == p.order(),
        rows(r.m@) == matrix_of(p.order(), span_of(p.order().dom())),
        r.md.is_fresh(p.md.n as nat),
{
    let ghost u = p.order();
    proof {
        assert(u.dom() =~= p.g@.dom());
    }
    let d = key_span(&p.g);
    let g = &p.g;
    let c = tabulate(
        d,
        |i: usize, j: usize| -> (b: bool)
            ensures
                b == le(graph_order(g@), i, j)
            {
                match g.get(&i) {
                    Some(s) => s.contains(&j),
                    None => false,
                }
            },
    );
    proof {
        lemma_matrix_of(u);
        assert(rows(c@) =~= matrix_of(u, d as nat)) by {
            assert forall|i: int| 0 <= i < d implies #[trigger] rows(c@)[i] =~= matrix_of(u, d as nat)[i] by {
                assert forall|j: int| 0 <= j < d implies rows(c@)[i][j] == matrix_of(u, d as nat)[i][j] by {
                    assert(c@[i]@[j] == le(u, i as usize, j as usize));
                }
            }
        }
    }
    PosetM { md: MetaData::new(p.md.n), m: c }
}

/// The Hasse diagram of a graph poset, by transitive reduction.
pub fn graph_to_hasse(p: PosetG) -> (r: PosetH)
    requires
        p.wf(),
    ensures
        r.wf(),
        r.order() == p.order(),
        graph_order(r.h@) == covers_of(p.order()),
        r.md.is_fresh(p.md.n as nat),
{
    let h = reduce(&p.g);
    proof {
        assert(graph_order(h@).dom() =~= h@.dom());
        assert(covers_of(p.order()).dom() =~= p.order().dom());
    }
    PosetH::new(&h)
}

/// The graph of a Hasse diagram poset, by following covers from each element.
pub fn hasse_to_graph(p: PosetH) -> (r: PosetG)
    requires
        p.wf(),
    ensures
        r.wf(),
        r.order() == p.order(),
        r.md.is_fresh(p.md.n as nat),
{
    let g = p.closure();
    proof {
        assert(graph_order(g@).dom() =~= g@.dom());
    }
    PosetG::new(&g)
}

/// The Hasse diagram of a matrix poset.
pub fn matrix_to_hasse(p: PosetM) -> (r: PosetH)
    requires
        p.wf(),
    ensures
        r.wf(),
        r.order() == p.order(),
        graph_order(r.h@) == covers_of(p.order()),
        r.md.is_fresh(p.md.n as nat),
{
    graph_to_hasse(matrix_to_graph(p))
}

/// The matrix of a Hasse diagram poset.
pub fn hasse_to_matrix(p: PosetH) -> (r: PosetM)
    requires
        p.wf(),
        span_of(p.order().dom()) <= usize::MAX,
    ensures
        r.wf(),
        r.order() == p.order(),
        rows(r.m@) == matrix_of(p.order(), span_of(p.order().dom())),
        r.md.is_fresh(p.md.n as nat),
{
    graph_to_matrix(hasse_to_graph(p))
}

/// A matrix payload is the matrix of the order it denotes: converting a matrix poset to
/// another encoding and back gives the same matrix.
pub proof fn lemma_matrix_round_trip(a: Seq<Seq<bool>>)
    requires
        is_matrix(a),
        is_order(matrix_order(a)),
    ensures
        matrix_of(matrix_order(a), span_of(matrix_order(a).dom())) == a,
{
    lemma_matrix_span(a);
    let u = matrix_order(a);
    let b = matrix_of(u, a.len());
    assert forall|i: int| 0 <= i < a.len() implies #[trigger] b[i] =~= a[i] by {
        assert forall|j: int| 0 <= j < a.len() implies b[i][j] == a[i][j] by {
            if a[i][j] {
                assert(a[i][i]);
            }
        }
    }
    assert(b =~= a);
}

/// A graph payload is determined by its order: converting a graph poset to another encoding
/// and back gives the same graph.
pub proof fn lemma_graph_round_trip(g: Map<usize, HashSet<usize>>, g2: Map<usize, HashSet<usize>>)
    requires
        graph_order(g) == graph_order(g2),
    ensures
        forall|x: usize| #[trigger] g.contains_key(x) == g2.contains_key(x),
        forall|x: usize| g.contains_key(x) ==> #[trigger] g[x]@ == g2[x]@,
{
    assert(graph_order(g).dom() =~= g.dom());
    assert(graph_order(g2).dom() =~= g2.dom());
    assert forall|x: usize| #[trigger] g.contains_key(x) == g2.contains_key(x) by {
        assert(graph_order(g).dom().contains(x) == graph_order(g2).dom().contains(x));
    }
    assert forall|x: usize| g.contains_key(x) implies #[trigger] g[x]@ == g2[x]@ by {
        assert(graph_order(g)[x] == graph_order(g2)[x]);
    }
}

} // verus!
