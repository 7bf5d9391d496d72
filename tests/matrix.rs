use fin_pos::posetm::PosetM;
use fin_pos::{Elt, Poset, PosetError};
use std::collections::HashSet;

#[test]
fn posetm_test_new_chain() {
    let m = vec![
        vec![true, true, true],
        vec![false, true, true],
        vec![false, false, true],
    ];
    assert_eq!(PosetM::new_chain(3), PosetM::new(&m));
}

#[test]
fn posetm_test_new_antichain() {
    let m = vec![
        vec![true, false, false],
        vec![false, true, false],
        vec![false, false, true],
    ];
    assert_eq!(PosetM::new_antichain(3), PosetM::new(&m));
}

#[test]
fn posetm_test_find_bot() {
    let mut p = PosetM::new_chain(3);
    p.find_bot();
    assert_eq!(p.md.bot, Some(Elt::A(0)));
}

#[test]
fn posetm_test_find_top() {
    let mut p = PosetM::new_chain(3);
    p.find_top();
    assert_eq!(p.md.top, Some(Elt::A(2)));
}

#[test]
fn posetm_test_find_minimals() {
    let mut p = PosetM::new_chain(3);
    p.find_minimals();
    let mut expected = HashSet::new();
    expected.insert(0);
    assert_eq!(p.md.minimals, Some(expected));

    let mut q = PosetM::new_antichain(3);
    q.find_minimals();
    let expected: HashSet<usize> = vec![0, 1, 2].iter().cloned().collect();
    assert_eq!(q.md.minimals, Some(expected));
}

#[test]
fn posetm_test_find_maximals() {
    let mut p = PosetM::new_chain(3);
    p.find_maximals();
    let mut expected = HashSet::new();
    expected.insert(2);
    assert_eq!(p.md.maximals, Some(expected));

    let mut q = PosetM::new_antichain(3);
    q.find_maximals();
    let mut expected = HashSet::new();
    expected.insert(0);
    expected.insert(1);
    expected.insert(2);
    assert_eq!(q.md.maximals, Some(expected));
}

#[test]
fn posetm_test_vee() {
    let m = vec![
        vec![true, true, true],
        vec![false, true, false],
        vec![false, false, true],
    ];

    let mut vee = PosetM::new(&m);

    let minimals: HashSet<usize> = vec![0].iter().cloned().collect();
    let maximals: HashSet<usize> = vec![1, 2].iter().cloned().collect();
    let top = Some(Elt::NotPresent);
    let bot = Some(Elt::A(0));

    vee.find_top();
    vee.find_bot();
    vee.find_minimals();
    vee.find_maximals();
    assert_eq!(vee.md.bot, bot);
    assert_eq!(vee.md.top, top);
    assert_eq!(vee.md.minimals, Some(minimals));
    assert_eq!(vee.md.maximals, Some(maximals));

    let m = vec![
        vec![true, false, false],
        vec![true, true, false],
        vec![true, false, true],
    ];
    let vee_op = PosetM::new(&m);
    assert_eq!(vee.op(), vee_op);
}

fn set(xs: &[usize]) -> HashSet<usize> {
    xs.iter().cloned().collect()
}

#[test]
fn matrix_chain_leq() {
    let p = PosetM::new_chain(3);
    assert_eq!(p.leq(0, 2), Ok(true));
    assert_eq!(p.leq(2, 0), Ok(false));
    assert_eq!(p.leq(3, 0), Err(PosetError::IndexOutOfRange));
    assert_eq!(p.elements(), vec![0, 1, 2]);
}

#[test]
fn matrix_vee_dual_extremes() {
    let m = vec![
        vec![true, true, true],
        vec![false, true, false],
        vec![false, false, true],
    ];
    let mut d = PosetM::new(&m).op();
    d.find_bot();
    d.find_top();
    d.find_minimals();
    d.find_maximals();
    assert_eq!(d.md.bot, Some(Elt::NotPresent));
    assert_eq!(d.md.top, Some(Elt::A(0)));
    assert_eq!(d.md.minimals, Some(set(&[1, 2])));
    assert_eq!(d.md.maximals, Some(set(&[0])));
}

#[test]
fn matrix_adjoin_bot_and_top() {
    let mut p = PosetM::new_antichain(2);
    p.adjoin_bot();
    assert_eq!(p.m, vec![vec![true, false, false], vec![false, true, false], vec![true, true, true]]);
    assert_eq!(p.md.bot, Some(Elt::A(2)));
    p.adjoin_top();
    assert_eq!(p.md.n, 4);
    assert_eq!(p.md.top, Some(Elt::A(3)));
    assert_eq!(p.leq(2, 3), Ok(true));
    assert_eq!(p.leq(0, 3), Ok(true));
    assert_eq!(p.leq(3, 0), Ok(false));
    p.find_bot();
    assert_eq!(p.md.bot, Some(Elt::A(2)));
}

#[test]
fn matrix_sub_keeps_identifiers() {
    let p = PosetM::new_chain(4);
    let q = p.sub(&set(&[0, 2])).unwrap();
    assert_eq!(q.md.n, 2);
    assert_eq!(q.m, vec![vec![true, false, true], vec![false, false, false], vec![false, false, true]]);
    assert_eq!(q.elements(), vec![0, 2]);
    assert_eq!(q.leq(0, 2), Ok(true));
    assert_eq!(q.leq(1, 2), Err(PosetError::IndexOutOfRange));
    assert_eq!(p.sub(&set(&[4])).err(), Some(PosetError::IndexOutOfRange));
}

#[test]
fn matrix_empty() {
    let mut p = PosetM::new_chain(0);
    p.find_bot();
    p.find_minimals();
    assert_eq!(p.md.n, 0);
    assert_eq!(p.md.bot, Some(Elt::NotPresent));
    assert_eq!(p.md.minimals, Some(HashSet::new()));
}
