use circuit_sat::Lit;
use circuit_sat::Solver;
use circuit_sat::Var;

#[test]
fn test() {
    let mut solver = Solver::new();
    let var0 = solver.add_var();
    let var1 = solver.add_var();
    let var2 = solver.add_var();
    let lit0 = Lit::new(var0, false);
    let lit1 = Lit::new(var1, false);
    solver.set_fanin(var2, Lit::new(var0, false), Lit::new(var1, false));
    solver.new_round();
    solver.mark_cone(var2);
    solver.add_clause(&[lit0.negate(), lit1]);
    // Assuming the AND output forces both inputs true; (!v0 | v1) holds.
    let ret = solver.solve(&[Lit::new(var2, false)]).unwrap();
    assert_eq!(ret[0], Lit(0));
    assert_eq!(ret[1], Lit(2));
    // (!v0 | !v1) now contradicts the forced inputs.
    solver.add_clause(&[lit0.negate(), lit1.negate()]);
    let ret = solver.solve(&[Lit::new(var2, false)]);
    assert!(ret.is_none());
}

#[test]
fn monotonic_allocation() {
    let mut solver = Solver::new();
    for k in 0..5 {
        let v = solver.add_var();
        assert_eq!(v, Var(k));
    }
}

#[test]
fn and_gate_sat_then_unsat() {
    let mut solver = Solver::new();
    let v0 = solver.add_var();
    let v1 = solver.add_var();
    let v2 = solver.add_var();
    solver.set_fanin(v2, Lit::new(v0, false), Lit::new(v1, false));
    solver.new_round();
    solver.mark_cone(v2);
    let model = solver.solve(&[Lit::new(v2, false)]).unwrap();
    assert_eq!(model.len(), 3);
    assert_eq!(model[2], Lit::new(v2, false));
    // Forbid v0 & v1: the assumption now contradicts the AND structure.
    solver.add_clause(&[Lit::new(v0, true), Lit::new(v1, true)]);
    assert!(solver.solve(&[Lit::new(v2, false)]).is_none());
}

#[test]
fn unconstrained_cone_model() {
    let mut solver = Solver::new();
    let v0 = solver.add_var();
    let v1 = solver.add_var();
    let v2 = solver.add_var();
    solver.set_fanin(v2, Lit::new(v0, false), Lit::new(v1, false));
    solver.new_round();
    solver.mark_cone(v2);
    let model = solver.solve(&[Lit::new(v2, false)]).unwrap();
    // Assuming the output true forces both inputs true.
    assert_eq!(model[0], Lit(0));
    assert_eq!(model[1], Lit(2));
    assert_eq!(model[2], Lit(4));
}

#[test]
fn cone_scopes_constraints() {
    let mut solver = Solver::new();
    let v0 = solver.add_var();
    let v1 = solver.add_var();
    let v2 = solver.add_var();
    solver.set_fanin(v2, Lit::new(v0, false), Lit::new(v1, false));
    solver.add_clause(&[Lit::new(v0, true)]);
    solver.new_round();
    // Nothing is marked: the AND structure is not materialized, so
    // assuming the output true is consistent with v0 being false.
    assert!(solver.solve(&[Lit::new(v2, false)]).is_some());
    solver.new_round();
    solver.mark_cone(v2);
    // Marked: the output now forces v0 true, against the unit clause.
    assert!(solver.solve(&[Lit::new(v2, false)]).is_none());
}

#[test]
fn round_isolation() {
    let mut solver = Solver::new();
    let v0 = solver.add_var();
    let v1 = solver.add_var();
    let v2 = solver.add_var();
    solver.set_fanin(v2, Lit::new(v0, false), Lit::new(v1, false));
    solver.add_clause(&[Lit::new(v0, true)]);
    solver.new_round();
    solver.mark_cone(v2);
    solver.new_round();
    // The mark from the previous round is gone: no structural clauses
    // were ever emitted, so the assumption is satisfiable.
    assert!(solver.solve(&[Lit::new(v2, false)]).is_some());
    // Re-marking in the fresh round takes effect.
    solver.new_round();
    solver.mark_cone(v2);
    assert!(solver.solve(&[Lit::new(v2, false)]).is_none());
}

#[test]
fn idempotent_re_round() {
    let mut solver = Solver::new();
    let v0 = solver.add_var();
    let v1 = solver.add_var();
    let v2 = solver.add_var();
    solver.set_fanin(v2, Lit::new(v0, false), Lit::new(v1, false));
    solver.new_round();
    solver.mark_cone(v2);
    let first = solver.solve(&[Lit::new(v2, false)]);
    assert!(first.is_some());
    // A fresh round over an already-clausified node: nothing new is
    // emitted and the verdict is unchanged.
    solver.new_round();
    solver.mark_cone(v2);
    let second = solver.solve(&[Lit::new(v2, false)]);
    assert!(second.is_some());
    assert_eq!(first, second);
}

#[test]
fn shared_fanin_cone() {
    // v2 = AND(v0, v1), v3 = AND(v0, v2): marking v3 pulls in the whole
    // shared cone, and assuming v3 true forces every node true.
    let mut solver = Solver::new();
    let v0 = solver.add_var();
    let v1 = solver.add_var();
    let v2 = solver.add_var();
    let v3 = solver.add_var();
    solver.set_fanin(v2, Lit::new(v0, false), Lit::new(v1, false));
    solver.set_fanin(v3, Lit::new(v0, false), Lit::new(v2, false));
    solver.new_round();
    solver.mark_cone(v3);
    let model = solver.solve(&[Lit::new(v3, false)]).unwrap();
    assert_eq!(model.len(), 4);
    assert_eq!(model[0], Lit::new(v0, false));
    assert_eq!(model[1], Lit::new(v1, false));
    assert_eq!(model[2], Lit::new(v2, false));
    assert_eq!(model[3], Lit::new(v3, false));
}

#[test]
fn empty_engine_solves() {
    let mut solver = Solver::new();
    let model = solver.solve(&[]).unwrap();
    assert_eq!(model.len(), 0);
}

#[test]
fn empty_clause_unsat() {
    let mut solver = Solver::new();
    let _ = solver.add_var();
    solver.add_clause(&[]);
    assert!(solver.solve(&[]).is_none());
}

#[test]
fn contradictory_assumptions_unsat() {
    let mut solver = Solver::new();
    let v0 = solver.add_var();
    assert!(solver.solve(&[Lit::new(v0, false), Lit::new(v0, true)]).is_none());
}

#[test]
fn negated_fanin_gate() {
    // v2 = AND(!v0, v1): assuming v2 true forces v0 false and v1 true.
    let mut solver = Solver::new();
    let v0 = solver.add_var();
    let v1 = solver.add_var();
    let v2 = solver.add_var();
    solver.set_fanin(v2, Lit::new(v0, true), Lit::new(v1, false));
    solver.new_round();
    solver.mark_cone(v2);
    let model = solver.solve(&[Lit::new(v2, false)]).unwrap();
    assert_eq!(model[0], Lit::new(v0, true));
    assert_eq!(model[1], Lit::new(v1, false));
    assert_eq!(model[2], Lit::new(v2, false));
}
