use simp_sat::{Lit, Var};

#[test]
fn literal_round_trip() {
    for i in [0, 1, 2, 7, 1000, 0x3fff_ffff] {
        for neg in [false, true] {
            let l = Lit::new(Var::from(i), neg);
            assert_eq!(i32::from(l.var()), i);
            assert_eq!(l.compl(), neg);
        }
    }
}

#[test]
fn positive_literal_from_var() {
    let v = Var::from(9);
    let l: Lit = v.into();
    assert_eq!(l, Lit::new(v, false));
    assert!(!l.compl());
    assert_eq!(l.var(), v);
}

#[test]
fn negation_is_an_involution() {
    for i in [0, 3, 12345, 0x3fff_ffff] {
        for neg in [false, true] {
            let l = Lit::new(Var::from(i), neg);
            assert_eq!(!!l, l);
            assert_ne!(!l, l);
            assert_eq!((!l).var(), l.var());
            assert_eq!((!l).compl(), !neg);
            assert_eq!(!l, Lit::new(Var::from(i), !neg));
        }
    }
}

#[test]
fn distinct_literals_differ() {
    let a = Lit::new(Var::from(1), false);
    let b = Lit::new(Var::from(0), true);
    assert_ne!(a, b);
    assert_ne!(a, Lit::new(Var::from(1), true));
}
