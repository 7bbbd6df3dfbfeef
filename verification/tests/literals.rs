use circuit_sat::Lit;
use circuit_sat::Var;

#[test]
fn lit_roundtrip() {
    let l = Lit::new(Var(5), true);
    assert_eq!(l.var(), Var(5));
    assert!(l.compl());
    let p = Lit::new(Var(5), false);
    assert_eq!(p.var(), Var(5));
    assert!(!p.compl());
    assert_eq!(p, Lit(10));
    assert_eq!(l, Lit(11));
}

#[test]
fn lit_roundtrip_extremes() {
    let zero = Lit::new(Var(0), false);
    assert_eq!(zero, Lit(0));
    assert_eq!(zero.var(), Var(0));
    assert!(!zero.compl());
    let top = Lit::new(Var(1073741823), true);
    assert_eq!(top, Lit(i32::MAX));
    assert_eq!(top.var(), Var(1073741823));
    assert!(top.compl());
}

#[test]
fn negate_involution() {
    let l = Lit::new(Var(7), false);
    let n = l.negate();
    assert_eq!(n.var(), l.var());
    assert!(n.compl());
    assert_eq!(n.negate(), l);
    let m = Lit::new(Var(3), true);
    assert_eq!(m.negate().negate(), m);
    assert_eq!(m.negate(), Lit(6));
}
