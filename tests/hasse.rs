use fin_pos::convertors::{
    graph_to_hasse, graph_to_matrix, hasse_to_graph, hasse_to_matrix, matrix_to_graph,
    matrix_to_hasse,
};
use fin_pos::posetg::PosetG;
use fin_pos::poseth::PosetH;
use fin_pos::posetm::PosetM;
use fin_pos::{Elt, Poset, PosetError};
use std::collections::{HashMap, HashSet};

fn set(xs: &[usize]) -> HashSet<usize> {
    xs.iter().cloned().collect()
}

fn vee() -> PosetG {
    let mut g = HashMap::new();
    g.insert(0, set(&[0, 1, 2]));
    g.insert(1, set(&[1]));
    g.insert(2, set(&[2]));
    PosetG::new(&g)
}

#[test]
fn vee_graph_to_hasse_and_back() {
    let h = graph_to_hasse(vee());
    assert_eq!(h.h.get(&0), Some(&set(&[1, 2])));
    assert_eq!(h.h.get(&1), Some(&set(&[])));
    assert_eq!(h.h.get(&2), Some(&set(&[])));
    assert_eq!(h.h.len(), 3);
    let g = hasse_to_graph(h);
    assert_eq!(g, vee());
}

#[test]
fn chain_hasse_is_successor() {
    let h = PosetH::new_chain(4);
    assert_eq!(h.h.get(&0), Some(&set(&[1])));
    assert_eq!(h.h.get(&2), Some(&set(&[3])));
    assert_eq!(h.h.get(&3), Some(&set(&[])));
    assert_eq!(h.leq(0, 3), Ok(true));
    assert_eq!(h.leq(3, 0), Ok(false));
    assert_eq!(h.leq(0, 4), Err(PosetError::IndexOutOfRange));
    let g = hasse_to_graph(h);
    assert_eq!(g, PosetG::new_chain(4));
}

#[test]
fn hasse_extremes() {
    let mut h = PosetH::new_chain(3);
    h.find_bot();
    h.find_top();
    h.find_minimals();
    assert_eq!(h.md.bot, Some(Elt::A(0)));
    assert_eq!(h.md.top, Some(Elt::A(2)));
    assert_eq!(h.md.minimals, Some(set(&[0])));
    assert_eq!(h.md.maximals, Some(set(&[2])));

    let mut a = PosetH::new_antichain(3);
    a.find_bot();
    a.find_top();
    a.find_minimals();
    assert_eq!(a.md.bot, Some(Elt::NotPresent));
    assert_eq!(a.md.top, Some(Elt::NotPresent));
    assert_eq!(a.md.minimals, Some(set(&[0, 1, 2])));
    assert_eq!(a.md.maximals, Some(set(&[0, 1, 2])));
}

#[test]
fn hasse_op_reverses_covers() {
    let h = graph_to_hasse(vee()).op();
    assert_eq!(h.h.get(&0), Some(&set(&[])));
    assert_eq!(h.h.get(&1), Some(&set(&[0])));
    assert_eq!(h.h.get(&2), Some(&set(&[0])));
    let back = h.op();
    assert_eq!(back.h, graph_to_hasse(vee()).h);
}

#[test]
fn hasse_adjoin_top_covers_maximals() {
    let mut h = graph_to_hasse(vee());
    h.adjoin_top();
    assert_eq!(h.md.n, 4);
    assert_eq!(h.h.get(&1), Some(&set(&[3])));
    assert_eq!(h.h.get(&2), Some(&set(&[3])));
    assert_eq!(h.h.get(&0), Some(&set(&[1, 2])));
    assert_eq!(h.h.get(&3), Some(&set(&[])));
    assert_eq!(h.md.top, Some(Elt::A(3)));
    h.adjoin_bot();
    assert_eq!(h.h.get(&4), Some(&set(&[0])));
    assert_eq!(h.leq(4, 3), Ok(true));
}

#[test]
fn hasse_sub_recomputes_covers() {
    let h = PosetH::new_chain(4);
    let s = h.sub(&set(&[0, 2, 3])).unwrap();
    assert_eq!(s.md.n, 3);
    assert_eq!(s.h.get(&0), Some(&set(&[2])));
    assert_eq!(s.h.get(&2), Some(&set(&[3])));
    assert_eq!(s.h.get(&1), None);
    assert_eq!(h.sub(&set(&[9])).err(), Some(PosetError::IndexOutOfRange));
}

#[test]
fn round_trips_between_encodings() {
    let m = PosetM::new_corolla(3);
    assert_eq!(graph_to_matrix(matrix_to_graph(PosetM::new_corolla(3))).m, m.m);
    assert_eq!(hasse_to_matrix(matrix_to_hasse(PosetM::new_corolla(3))).m, m.m);
    assert_eq!(matrix_to_graph(graph_to_matrix(vee())), vee());
    assert_eq!(hasse_to_graph(graph_to_hasse(vee())), vee());
    let h = PosetH::new_corolla(3);
    let h2 = graph_to_hasse(hasse_to_graph(PosetH::new_corolla(3)));
    assert_eq!(h.h, h2.h);
    let h3 = matrix_to_hasse(hasse_to_matrix(PosetH::new_corolla(3)));
    assert_eq!(h.h, h3.h);
}

#[test]
fn empty_conversions() {
    let g = PosetG::new_chain(0);
    let m = graph_to_matrix(g);
    assert!(m.m.is_empty());
    let h = matrix_to_hasse(m);
    assert!(h.h.is_empty());
    let g = hasse_to_graph(h);
    assert!(g.g.is_empty());
    assert_eq!(g.md.n, 0);
}

#[test]
fn graph_to_matrix_of_sub_has_side_of_largest() {
    let p = PosetG::new_chain(5).sub(&set(&[1, 3])).unwrap();
    let m = graph_to_matrix(p);
    assert_eq!(m.m.len(), 4);
    assert_eq!(m.md.n, 2);
    assert_eq!(m.m[1], vec![false, true, false, true]);
    assert_eq!(m.m[0], vec![false, false, false, false]);
}
