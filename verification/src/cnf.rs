//! Clause semantics and a complete satisfiability search.
//!
//! An assignment is a sequence of booleans, one per variable. A clause is a
//! disjunction of literals; a clause database is satisfied when every clause
//! holds. Assumption literals are constraints of a single solve call.

use vstd::prelude::*;

use crate::lit::Lit;
use crate::lit::lit_neg_spec;
use crate::lit::lit_var_spec;
use crate::lit::lit_wf;

verus! {

/// Every literal in `ls` is well formed and refers to a variable below `n`.
pub open spec fn lits_in_range(ls: Seq<Lit>, n: int) -> bool {
    forall|i: int| 0 <= i < ls.len() ==> lit_wf(#[trigger] ls[i]) && lit_var_spec(ls[i]) < n
}

/// Every clause of `cs` only mentions variables below `n`.
pub open spec fn cnf_in_range(cs: Seq<Seq<Lit>>, n: int) -> bool {
    forall|i: int| 0 <= i < cs.len() ==> lits_in_range(#[trigger] cs[i], n)
}

/// The literal `l` holds under assignment `a`.
pub open spec fn lit_sat(a: Seq<bool>, l: Lit) -> bool {
    if lit_neg_spec(l) {
        !a[lit_var_spec(l)]
    } else {
        a[lit_var_spec(l)]
    }
}

/// Some literal of the clause `c` holds under `a`.
pub open spec fn clause_sat(a: Seq<bool>, c: Seq<Lit>) -> bool {
    exists|i: int| 0 <= i < c.len() && lit_sat(a, #[trigger] c[i])
}

/// Every clause of `cs` holds under `a`.
pub open spec fn cnf_sat(a: Seq<bool>, cs: Seq<Seq<Lit>>) -> bool {
    forall|i: int| 0 <= i < cs.len() ==> clause_sat(a, #[trigger] cs[i])
}

/// Every literal of `asms` holds under `a`.
pub open spec fn asms_sat(a: Seq<bool>, asms: Seq<Lit>) -> bool {
    forall|i: int| 0 <= i < asms.len() ==> lit_sat(a, #[trigger] asms[i])
}

/// Every clause of `cs` and every literal of `asms` holds under `a`.
pub open spec fn full_sat(a: Seq<bool>, cs: Seq<Seq<Lit>>, asms: Seq<Lit>) -> bool {
    cnf_sat(a, cs) && asms_sat(a, asms)
}

/// The mathematical view of an executable clause database.
pub open spec fn db_view(cs: Seq<Vec<Lit>>) -> Seq<Seq<Lit>> {
    cs.map_values(|c: Vec<Lit>| c@)
}

/// The assignment a model literal sequence encodes: variable `i` is true
/// exactly when the `i`-th literal is non-negated.
pub open spec fn assignment_of(m: Seq<Lit>) -> Seq<bool> {
    Seq::new(m.len(), |i: int| !lit_neg_spec(m[i]))
}

fn eval_lit(a: &Vec<bool>, l: Lit) -> (r: bool)
    requires
        lit_wf(l),
        lit_var_spec(l) < a@.len(),
    ensures
        r == lit_sat(a@, l),
{
    let idx = ((l.0 as u32) / 2) as usize;
    if (l.0 as u32) % 2 == 1 {
        !a[idx]
    } else {
        a[idx]
    }
}

fn eval_clause(a: &Vec<bool>, c: &[Lit]) -> (r: bool)
    requires
        lits_in_range(c@, a@.len() as int),
    ensures
        r == clause_sat(a@, c@),
{
    let mut i: usize = 0;
    while i < c.len()
        invariant
            i <= c@.len(),
            lits_in_range(c@, a@.len() as int),
            forall|j: int| 0 <= j < i ==> !lit_sat(a@, #[trigger] c@[j]),
        decreases c@.len() - i,
    {
        if eval_lit(a, c[i]) {
            assert(0 <= i < c@.len() && lit_sat(a@, c@[i as int]));
            return true;
        }
        i = i + 1;
    }
    false
}

fn eval_cnf(a: &Vec<bool>, cs: &Vec<Vec<Lit>>) -> (r: bool)
    requires
        cnf_in_range(db_view(cs@), a@.len() as int),
    ensures
        r == cnf_sat(a@, db_view(cs@)),
{
    let mut i: usize = 0;
    while i < cs.len()
        invariant
            i <= cs@.len(),
            cnf_in_range(db_view(cs@), a@.len() as int),
            forall|j: int| 0 <= j < i ==> clause_sat(a@, #[trigger] db_view(cs@)[j]),
        decreases cs@.len() - i,
    {
        let ci: &Vec<Lit> = &cs[i];
        assert(db_view(cs@)[i as int] == ci@);
        if !eval_clause(a, ci.as_slice()) {
            return false;
        }
        i = i + 1;
    }
    true
}

fn eval_asms(a: &Vec<bool>, asms: &[Lit]) -> (r: bool)
    requires
        lits_in_range(asms@, a@.len() as int),
    ensures
        r == asms_sat(a@, asms@),
{
    let mut i: usize = 0;
    while i < asms.len()
        invariant
            i <= asms@.len(),
            lits_in_range(asms@, a@.len() as int),
            forall|j: int| 0 <= j < i ==> lit_sat(a@, #[trigger] asms@[j]),
        decreases asms@.len() - i,
    {
        if !eval_lit(a, asms[i]) {
            return false;
        }
        i = i + 1;
    }
    true
}

fn copy_assignment(a: &Vec<bool>) -> (r: Vec<bool>)
    ensures
        r@ == a@,
{
    let mut r: Vec<bool> = Vec::new();
    let mut i: usize = 0;
    while i < a.len()
        invariant
            i <= a@.len(),
            r@ == a@.subrange(0, i as int),
        decreases a@.len() - i,
    {
        r.push(a[i]);
        proof {
            assert(r@ =~= a@.subrange(0, i + 1));
        }
        i = i + 1;
    }
    proof {
        assert(r@ =~= a@);
    }
    r
}

/// Exhaustive search over all extensions of the partial assignment `a` to
/// `n` variables. Returns a satisfying total assignment exactly when one
/// extending `a` exists.
fn search_rec(cs: &Vec<Vec<Lit>>, asms: &[Lit], n: usize, a: &mut Vec<bool>) -> (r: Option<
    Vec<bool>,
>)
    requires
        cnf_in_range(db_view(cs@), n as int),
        lits_in_range(asms@, n as int),
        old(a)@.len() <= n,
    ensures
        final(a)@ == old(a)@,
        match r {
            Some(m) => m@.len() == n && old(a)@.is_prefix_of(m@) && full_sat(
                m@,
                db_view(cs@),
                asms@,
            ),
            None => forall|b: Seq<bool>|
                b.len() == n && old(a)@.is_prefix_of(b) ==> !full_sat(b, db_view(cs@), asms@),
        },
    decreases n - a.len(),
{
    if a.len() == n {
        if eval_cnf(a, cs) && eval_asms(a, asms) {
            let m = copy_assignment(a);
            proof {
                assert(old(a)@.is_prefix_of(m@));
            }
            Some(m)
        } else {
            proof {
                assert forall|b: Seq<bool>|
                    b.len() == n && old(a)@.is_prefix_of(b) implies !full_sat(
                    b,
                    db_view(cs@),
                    asms@,
                ) by {
                    assert(b =~= old(a)@);
                }
            }
            None
        }
    } else {
        let ghost entry = a@;
        a.push(false);
        let r0 = search_rec(cs, asms, n, a);
        proof {
            assert(a@ == entry.push(false));
        }
        if let Some(m) = r0 {
            let _ = a.pop();
            proof {
                assert(a@ =~= entry);
                assert(entry.is_prefix_of(m@)) by {
                    assert(entry.push(false).is_prefix_of(m@));
                    assert(entry =~= m@.subrange(0, entry.len() as int));
                }
            }
            return Some(m);
        }
        let _ = a.pop();
        proof {
            assert(a@ =~= entry);
        }
        a.push(true);
        let r1 = search_rec(cs, asms, n, a);
        proof {
            assert(a@ == entry.push(true));
        }
        let _ = a.pop();
        proof {
            assert(a@ =~= entry);
        }
        match r1 {
            Some(m) => {
                proof {
                    assert(entry.is_prefix_of(m@)) by {
                        assert(entry.push(true).is_prefix_of(m@));
                        assert(entry =~= m@.subrange(0, entry.len() as int));
                    }
                }
                Some(m)
            },
            None => {
                proof {
                    assert forall|b: Seq<bool>|
                        b.len() == n && entry.is_prefix_of(b) implies !full_sat(
                        b,
                        db_view(cs@),
                        asms@,
                    ) by {
                        let x = b[entry.len() as int];
                        assert(entry.push(x) =~= b.subrange(0, entry.len() as int + 1));
                        assert(entry.push(x).is_prefix_of(b));
                        if x {
                            assert(!full_sat(b, db_view(cs@), asms@));
                        } else {
                            assert(!full_sat(b, db_view(cs@), asms@));
                        }
                    }
                }
                None
            },
        }
    }
}

/// Decides whether the clause database together with the assumption
/// literals is satisfiable over `n` variables, returning a satisfying
/// total assignment exactly when one exists.
pub fn search(cs: &Vec<Vec<Lit>>, asms: &[Lit], n: usize) -> (r: Option<Vec<bool>>)
    requires
        cnf_in_range(db_view(cs@), n as int),
        lits_in_range(asms@, n as int),
    ensures
        match r {
            Some(m) => m@.len() == n && full_sat(m@, db_view(cs@), asms@),
            None => forall|b: Seq<bool>| b.len() == n ==> !full_sat(b, db_view(cs@), asms@),
        },
        r is Some <==> exists|b: Seq<bool>| b.len() == n && full_sat(b, db_view(cs@), asms@),
{
    let mut a: Vec<bool> = Vec::new();
    let r = search_rec(cs, asms, n, &mut a);
    proof {
        assert forall|b: Seq<bool>| b.len() == n implies Seq::<bool>::empty().is_prefix_of(b) by {
            assert(Seq::<bool>::empty() =~= b.subrange(0, 0));
        }
        match r {
            Some(ref m) => {
                assert(full_sat(m@, db_view(cs@), asms@));
            },
            None => {},
        }
    }
    r
}

} // verus!
