use lex_core::vobset::VobSet;
use vob::Vob;

#[test]
fn first_interned_bitset_gets_handle_zero() {
    let mut vs = VobSet::new();
    let empty = Vob::from_elem(false, 4);
    let h0 = vs.get(&empty);
    assert!(h0.is_zero());
}

#[test]
fn interning_same_contents_twice_returns_same_handle() {
    let mut vs = VobSet::new();
    let empty = Vob::from_elem(false, 4);
    let h0 = vs.get(&empty);
    let mut v = Vob::from_elem(false, 4);
    v.set(1, true);
    let h1 = vs.get(&v);
    let h1b = vs.get(&v.clone());
    assert_eq!(h1, h1b);
    assert_ne!(h0, h1);
    assert!(!h1.is_zero());
    let h0b = vs.get(&Vob::from_elem(false, 4));
    assert_eq!(h0, h0b);
    assert!(h0b.is_zero());
}

#[test]
fn and_is_zero_checks_intersection() {
    let mut vs = VobSet::new();
    let h0 = vs.get(&Vob::from_elem(false, 4));
    let mut a = Vob::from_elem(false, 4);
    a.set(0, true);
    let mut b = Vob::from_elem(false, 4);
    b.set(1, true);
    let mut c = Vob::from_elem(false, 4);
    c.set(0, true);
    c.set(1, true);
    let ha = vs.get(&a);
    let hb = vs.get(&b);
    let hc = vs.get(&c);
    assert!(vs.and_is_zero(h0, ha));
    assert!(vs.and_is_zero(ha, hb));
    assert!(!vs.and_is_zero(ha, hc));
    assert!(!vs.and_is_zero(hb, hc));
    assert!(!vs.and_is_zero(hc, hc));
    assert!(vs.and_is_zero(h0, h0));
}

#[test]
fn pre_compute_leaves_pool_and_queries_unchanged() {
    let mut vs = VobSet::new();
    let h0 = vs.get(&Vob::from_elem(false, 3));
    let mut a = Vob::from_elem(false, 3);
    a.set(2, true);
    let ha = vs.get(&a);
    vs.pre_compute();
    assert_eq!(vs.get(&Vob::from_elem(false, 3)), h0);
    assert_eq!(vs.get(&a), ha);
    assert!(vs.and_is_zero(h0, ha));
    assert!(!vs.and_is_zero(ha, ha));
}

#[test]
fn vob_is_zero_checks_every_bit() {
    assert!(lex_core::vobset::vob_is_zero(&Vob::from_elem(false, 5)));
    assert!(lex_core::vobset::vob_is_zero(&Vob::from_elem(false, 0)));
    let mut v = Vob::from_elem(false, 5);
    v.set(4, true);
    assert!(!lex_core::vobset::vob_is_zero(&v));
    assert!(!lex_core::vobset::vob_is_zero(&Vob::from_elem(true, 1)));
}
