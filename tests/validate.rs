use fin_pos::posetg::{BiPaGraph, PosetG};
use fin_pos::poseth::PosetH;
use fin_pos::posetm::PosetM;
use fin_pos::{Elt, Poset, PosetError};
use std::collections::{HashMap, HashSet};

fn set(xs: &[usize]) -> HashSet<usize> {
    xs.iter().cloned().collect()
}

fn graph(rows: &[(usize, &[usize])]) -> BiPaGraph {
    let mut g: BiPaGraph = HashMap::new();
    for (k, v) in rows {
        g.insert(*k, set(v));
    }
    g
}

#[test]
fn graph_payload_accepted() {
    let g = graph(&[(0, &[0, 1, 2]), (1, &[1]), (2, &[2])]);
    let mut p = PosetG::try_new(&g).unwrap();
    p.find_bot();
    assert_eq!(p.md.bot, Some(Elt::A(0)));
    assert_eq!(p.md.n, 3);
}

#[test]
fn graph_payload_not_reflexive() {
    let g = graph(&[(0, &[1]), (1, &[1])]);
    assert_eq!(PosetG::try_new(&g).err(), Some(PosetError::MalformedRelation));
}

#[test]
fn graph_payload_not_antisymmetric() {
    let g = graph(&[(0, &[0, 1]), (1, &[0, 1])]);
    assert_eq!(PosetG::try_new(&g).err(), Some(PosetError::MalformedRelation));
}

#[test]
fn graph_payload_not_transitive() {
    let g = graph(&[(0, &[0, 1]), (1, &[1, 2]), (2, &[2])]);
    assert_eq!(PosetG::try_new(&g).err(), Some(PosetError::MalformedRelation));
}

#[test]
fn graph_payload_names_a_stranger() {
    let g = graph(&[(0, &[0, 5])]);
    assert_eq!(PosetG::try_new(&g).err(), Some(PosetError::MalformedRelation));
}

#[test]
fn matrix_payload_accepted() {
    let m = vec![vec![true, true], vec![false, true]];
    let p = PosetM::try_new(&m).unwrap();
    assert_eq!(p, PosetM::new_chain(2));
}

#[test]
fn matrix_payload_rejected() {
    let not_reflexive = vec![vec![true, true], vec![false, false]];
    let cycle = vec![vec![true, true], vec![true, true]];
    let not_transitive = vec![
        vec![true, true, false],
        vec![false, true, true],
        vec![false, false, true],
    ];
    let ragged = vec![vec![true], vec![false, true]];
    for m in [not_reflexive, cycle, not_transitive, ragged] {
        assert_eq!(PosetM::try_new(&m).err(), Some(PosetError::MalformedRelation));
    }
}

#[test]
fn empty_payloads_accepted() {
    assert_eq!(PosetM::try_new(&vec![]).unwrap().md.n, 0);
    assert_eq!(PosetG::try_new(&HashMap::new()).unwrap().md.n, 0);
}

#[test]
fn hasse_payload_accepted() {
    let h = graph(&[(0, &[1, 2]), (1, &[]), (2, &[])]);
    let mut p = PosetH::try_new(&h).unwrap();
    p.find_bot();
    p.find_maximals();
    assert_eq!(p.md.bot, Some(Elt::A(0)));
    assert_eq!(p.md.maximals, Some(set(&[1, 2])));
    assert_eq!(p.leq(0, 2), Ok(true));
    assert_eq!(p.leq(1, 2), Ok(false));
}

#[test]
fn hasse_payload_with_cycle() {
    let h = graph(&[(0, &[1]), (1, &[0])]);
    assert_eq!(PosetH::try_new(&h).err(), Some(PosetError::MalformedRelation));
}

#[test]
fn hasse_payload_with_redundant_edge() {
    let h = graph(&[(0, &[1, 2]), (1, &[2]), (2, &[])]);
    assert_eq!(PosetH::try_new(&h).err(), Some(PosetError::MalformedRelation));
}

#[test]
fn hasse_payload_names_a_stranger() {
    let h = graph(&[(0, &[5])]);
    assert_eq!(PosetH::try_new(&h).err(), Some(PosetError::MalformedRelation));
}

#[test]
fn hasse_payload_empty() {
    assert_eq!(PosetH::try_new(&HashMap::new()).unwrap().md.n, 0);
}
