use fin_pos::posetg::{BiPaGraph, PosetG};
use fin_pos::{Elt, Poset, PosetError};
use std::collections::{HashMap, HashSet};

#[test]
fn posetg_test_new_chain() {
    let s_0: HashSet<usize> = vec![0, 1, 2].iter().cloned().collect();
    let s_1: HashSet<usize> = vec![1, 2].iter().cloned().collect();
    let s_2: HashSet<usize> = vec![2].iter().cloned().collect();
    let mut g: BiPaGraph = HashMap::new();
    g.insert(0, s_0);
    g.insert(1, s_1);
    g.insert(2, s_2);

    assert_eq!(PosetG::new_chain(3), PosetG::new(&g))
}

#[test]
fn posetg_test_new_antichain() {
    let s_0: HashSet<usize> = vec![0].iter().cloned().collect();
    let s_1: HashSet<usize> = vec![1].iter().cloned().collect();
    let s_2: HashSet<usize> = vec![2].iter().cloned().collect();
    let mut g: BiPaGraph = HashMap::new();
    g.insert(0, s_0);
    g.insert(1, s_1);
    g.insert(2, s_2);

    assert_eq!(PosetG::new_antichain(3), PosetG::new(&g))
}

#[test]
fn posetg_test_find_bot() {
    let mut p = PosetG::new_chain(3);
    p.find_bot();
    assert_eq!(p.md.bot, Some(Elt::A(0)));
}

#[test]
fn posetg_test_find_top() {
    let mut p = PosetG::new_chain(3);
    p.find_top();
    assert_eq!(p.md.top, Some(Elt::A(2)));
}

#[test]
fn posetg_test_find_minimals() {
    let mut p = PosetG::new_chain(3);
    p.find_minimals();
    let mut expected = HashSet::new();
    expected.insert(0);
    assert_eq!(p.md.minimals, Some(expected));

    let mut q = PosetG::new_antichain(3);
    q.find_minimals();
    let expected: HashSet<usize> = vec![0, 1, 2].iter().cloned().collect();
    assert_eq!(q.md.minimals, Some(expected));
}

#[test]
fn posetg_test_find_maximals() {
    let mut p = PosetG::new_chain(3);
    p.find_maximals();
    let mut expected = HashSet::new();
    expected.insert(2);
    assert_eq!(p.md.maximals, Some(expected));

    let mut q = PosetG::new_antichain(3);
    q.find_maximals();
    let mut expected = HashSet::new();
    expected.insert(0);
    expected.insert(1);
    expected.insert(2);
    assert_eq!(q.md.maximals, Some(expected));
}

#[test]
fn posetg_test_vee() {
    let s_0: HashSet<usize> = vec![0, 1, 2].iter().cloned().collect();
    let s_1 = vec![1].iter().cloned().collect();
    let s_2 = vec![2].iter().cloned().collect();
    let mut g = HashMap::new();
    g.insert(0, s_0);
    g.insert(1, s_1);
    g.insert(2, s_2);

    let mut vee = PosetG::new(&g);

    let minimals: HashSet<usize> = vec![0].iter().cloned().collect();
    let maximals: HashSet<usize> = vec![1, 2].iter().cloned().collect();
    let top = Some(Elt::NotPresent);
    let bot = Some(Elt::A(0));

    vee.find_top();
    vee.find_bot();
    vee.find_minimals();
    vee.find_maximals();
    assert_eq!(vee.md.bot, bot);
    assert_eq!(vee.md.top, top);
    assert_eq!(vee.md.minimals, Some(minimals));
    assert_eq!(vee.md.maximals, Some(maximals));

    let s_0: HashSet<usize> = vec![0].iter().cloned().collect();
    let s_1 = vec![1, 0].iter().cloned().collect();
    let s_2 = vec![2, 0].iter().cloned().collect();
    let mut g = HashMap::new();
    g.insert(0, s_0);
    g.insert(1, s_1);
    g.insert(2, s_2);
    let vee_op = PosetG::new(&g);
    assert_eq!(vee.op(), vee_op);
}

fn set(xs: &[usize]) -> HashSet<usize> {
    xs.iter().cloned().collect()
}

#[test]
fn graph_chain_leq() {
    let p = PosetG::new_chain(3);
    assert_eq!(p.leq(0, 2), Ok(true));
    assert_eq!(p.leq(2, 0), Ok(false));
    assert_eq!(p.leq(1, 1), Ok(true));
    assert_eq!(p.leq(0, 3), Err(PosetError::IndexOutOfRange));
    assert_eq!(p.leq(7, 0), Err(PosetError::IndexOutOfRange));
}

#[test]
fn graph_antichain_has_no_top_or_bottom() {
    let mut p = PosetG::new_antichain(3);
    p.find_bot();
    p.find_top();
    assert_eq!(p.md.bot, Some(Elt::NotPresent));
    assert_eq!(p.md.top, Some(Elt::NotPresent));
}

#[test]
fn graph_elements() {
    let p = PosetG::new_chain(4);
    let mut e = p.elements();
    e.sort();
    assert_eq!(e, vec![0, 1, 2, 3]);
    assert!(PosetG::new_chain(0).elements().is_empty());
}

#[test]
fn graph_adjoin_bot_below_old_bottom() {
    let mut p = PosetG::new_chain(2);
    p.find_bot();
    assert_eq!(p.md.bot, Some(Elt::A(0)));
    p.adjoin_bot();
    assert_eq!(p.md.n, 3);
    assert_eq!(p.md.bot, Some(Elt::A(2)));
    assert_eq!(p.md.minimals, Some(set(&[2])));
    assert_eq!(p.leq(2, 0), Ok(true));
    assert_eq!(p.leq(2, 1), Ok(true));
    assert_eq!(p.leq(0, 2), Ok(false));
    p.find_bot();
    assert_eq!(p.md.bot, Some(Elt::A(2)));
}

#[test]
fn graph_adjoin_top() {
    let mut p = PosetG::new_antichain(2);
    p.adjoin_top();
    assert_eq!(p.md.n, 3);
    assert_eq!(p.md.top, Some(Elt::A(2)));
    assert_eq!(p.md.maximals, Some(set(&[2])));
    assert_eq!(p.leq(0, 2), Ok(true));
    assert_eq!(p.leq(1, 2), Ok(true));
    assert_eq!(p.leq(2, 0), Ok(false));
    p.find_maximals();
    assert_eq!(p.md.maximals, Some(set(&[2])));
}

#[test]
fn graph_adjoin_on_empty() {
    let mut p = PosetG::new_chain(0);
    p.find_top();
    assert_eq!(p.md.top, Some(Elt::NotPresent));
    p.adjoin_bot();
    assert_eq!(p.md.n, 1);
    assert_eq!(p.md.top, None);
    p.find_top();
    assert_eq!(p.md.top, Some(Elt::A(0)));
}

#[test]
fn graph_sub_keeps_identifiers() {
    let p = PosetG::new_chain(4);
    let q = p.sub(&set(&[1, 3])).unwrap();
    assert_eq!(q.md.n, 2);
    let mut e = q.elements();
    e.sort();
    assert_eq!(e, vec![1, 3]);
    assert_eq!(q.leq(1, 3), Ok(true));
    assert_eq!(q.leq(3, 1), Ok(false));
    assert_eq!(q.leq(0, 1), Err(PosetError::IndexOutOfRange));
    assert_eq!(q.g.get(&1), Some(&set(&[1, 3])));
    assert_eq!(q.g.get(&3), Some(&set(&[3])));
}

#[test]
fn graph_sub_out_of_range() {
    let p = PosetG::new_chain(3);
    assert_eq!(p.sub(&set(&[0, 5])).err(), Some(PosetError::IndexOutOfRange));
}

#[test]
fn graph_sub_then_adjoin_uses_next_identifier() {
    let p = PosetG::new_chain(4);
    let mut q = p.sub(&set(&[0, 1])).unwrap();
    q.adjoin_top();
    assert_eq!(q.md.top, Some(Elt::A(2)));
    assert_eq!(q.leq(0, 2), Ok(true));
}

#[test]
fn graph_op_twice_is_identity() {
    let p = PosetG::new_corolla(3);
    let q = p.op().op();
    assert_eq!(q.g, p.g);
}
