use fin_pos::posetg::PosetG;
use fin_pos::posetm::PosetM;
use fin_pos::poseth::PosetH;
use fin_pos::{Elt, Poset};

#[test]
fn test_new_corolla() {
    let n = 3;

    let mut c = PosetG::new_corolla(n);
    assert_eq!(c.md.n, n + 1);

    c.find_top();
    c.find_maximals();

    assert_eq!(c.md.top, Some(Elt::NotPresent));
    assert_ne!(c.md.bot, None);
    assert_eq!(c.md.minimals.unwrap().len(), 1);
    assert_eq!(c.md.maximals.unwrap().len(), n);

    let mut c = PosetM::new_corolla(n);
    assert_eq!(c.md.n, n + 1);

    c.find_top();
    c.find_maximals();

    assert_eq!(c.md.top, Some(Elt::NotPresent));
    assert_ne!(c.md.bot, None);
    assert_eq!(c.md.minimals.unwrap().len(), 1);
    assert_eq!(c.md.maximals.unwrap().len(), n);
}

#[test]
fn corolla_in_every_encoding() {
    let mut g = PosetG::new_corolla(3);
    let mut m = PosetM::new_corolla(3);
    let mut h = PosetH::new_corolla(3);
    g.find_bot();
    m.find_bot();
    h.find_bot();
    g.find_top();
    m.find_top();
    h.find_top();
    g.find_minimals();
    m.find_minimals();
    h.find_minimals();
    for md in [&g.md, &m.md, &h.md] {
        assert_eq!(md.n, 4);
        assert_eq!(md.bot, Some(Elt::A(3)));
        assert_eq!(md.top, Some(Elt::NotPresent));
        assert_eq!(md.minimals, Some([3].into_iter().collect()));
        assert_eq!(md.maximals, Some([0, 1, 2].into_iter().collect()));
    }
}

#[test]
fn corolla_without_leaves_is_a_point() {
    let mut g = PosetG::new_corolla(0);
    g.find_top();
    g.find_bot();
    assert_eq!(g.md.n, 1);
    assert_eq!(g.md.top, Some(Elt::A(0)));
    assert_eq!(g.md.bot, Some(Elt::A(0)));
}
