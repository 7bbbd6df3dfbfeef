//! The incremental circuit-SAT engine.
//!
//! The engine owns the variable table, the per-node fanin store, the
//! round/cone bookkeeping and the clause database. Structural clauses for
//! a node (its AND function) are emitted lazily, at most once during the
//! engine's lifetime, when the node is cone-marked for a solve.

use vstd::prelude::*;
use vstd::set_lib::lemma_int_range;
use vstd::set_lib::lemma_len_subset;
use vstd::set_lib::set_int_range;

use crate::cnf::assignment_of;
use crate::cnf::clause_sat;
use crate::cnf::cnf_sat;
use crate::cnf::cnf_in_range;
use crate::cnf::lit_sat;
use crate::cnf::db_view;
use crate::cnf::full_sat;
use crate::cnf::lits_in_range;
use crate::cnf::search;
use crate::cone::cone_closed;
use crate::cone::cone_closed_except;
use crate::cone::in_cone;
use crate::cone::lemma_in_cone_child;
use crate::cone::lemma_in_cone_refl;
use crate::cone::lemma_in_cone_trans;
use crate::lit::LIT_VAR_LIMIT;
use crate::lit::Lit;
use crate::lit::Var;
use crate::lit::lemma_lit_roundtrip;
use crate::lit::lemma_negate_involution;
use crate::lit::lit_var_spec;
use crate::lit::lit_wf;
use crate::lit::mk_lit;
use crate::lit::spec_negate;

verus! {

/// Largest number of variables the engine accepts; every literal over
/// these variables fits in an `i32` code.
pub const MAX_VARS: usize = 1073741823;

/// The variable index pair a fanin entry refers to.
pub open spec fn fanin_vars(f: Option<(Lit, Lit)>) -> Option<(int, int)> {
    match f {
        Some((x, y)) => Some((lit_var_spec(x), lit_var_spec(y))),
        None => None,
    }
}

/// The fanin graph of a fanin store: one entry per variable, carrying the
/// driving variable indices.
pub open spec fn graph_of(fs: Seq<Option<(Lit, Lit)>>) -> Seq<Option<(int, int)>> {
    fs.map_values(|f: Option<(Lit, Lit)>| fanin_vars(f))
}

/// A valid fanin entry over `n` variables: both driving literals are well
/// formed, refer to variables below `n`, and the first driving variable is
/// strictly below the second.
pub open spec fn fanin_ok(f: (Lit, Lit), n: int) -> bool {
    &&& lit_wf(f.0)
    &&& lit_wf(f.1)
    &&& lit_var_spec(f.0) < n
    &&& lit_var_spec(f.1) < n
    &&& lit_var_spec(f.0) < lit_var_spec(f.1)
}

/// The CNF encoding of `v <=> AND(f.0, f.1)`: three clauses.
pub open spec fn and_gate_clauses(v: int, f: (Lit, Lit)) -> Seq<Seq<Lit>> {
    seq![
        seq![mk_lit(v, true), f.0],
        seq![mk_lit(v, true), f.1],
        seq![mk_lit(v, false), spec_negate(f.0), spec_negate(f.1)],
    ]
}

/// The structural clauses one materialization step owes for variable `v`:
/// its AND encoding when `v` is cone-marked, has a recorded fanin and was
/// never clausified before, nothing otherwise.
pub open spec fn emit_for(s: Solver, v: int) -> Seq<Seq<Lit>> {
    if s.marked(v) && !s.is_clausified(v) && s.fanins()[v] is Some {
        and_gate_clauses(v, s.fanins()[v]->Some_0)
    } else {
        Seq::empty()
    }
}

/// The structural clauses a solve on state `s` emits for the variables
/// below `k`, in increasing variable order.
pub open spec fn pending_clauses(s: Solver, k: int) -> Seq<Seq<Lit>>
    decreases k,
{
    if k <= 0 {
        Seq::empty()
    } else {
        pending_clauses(s, k - 1) + emit_for(s, k - 1)
    }
}

/// The structural clauses of a node say exactly that the node is the AND
/// of its two driving literals: under an assignment `a`, the clause
/// encoding of `v <=> AND(f.0, f.1)` holds if and only if the value of
/// `v` equals the conjunction of the values of the driving literals.
pub proof fn lemma_and_gate_semantics(a: Seq<bool>, v: int, f: (Lit, Lit))
    requires
        0 <= v < a.len(),
        v <= LIT_VAR_LIMIT,
        lit_wf(f.0),
        lit_wf(f.1),
        lit_var_spec(f.0) < a.len(),
        lit_var_spec(f.1) < a.len(),
    ensures
        cnf_sat(a, and_gate_clauses(v, f)) <==> (a[v] == (lit_sat(a, f.0) && lit_sat(a, f.1))),
{
    let cs = and_gate_clauses(v, f);
    lemma_lit_roundtrip(v, true);
    lemma_lit_roundtrip(v, false);
    lemma_negate_involution(f.0);
    lemma_negate_involution(f.1);
    assert(lit_sat(a, mk_lit(v, true)) == !a[v]);
    assert(lit_sat(a, mk_lit(v, false)) == a[v]);
    assert(lit_sat(a, spec_negate(f.0)) == !lit_sat(a, f.0));
    assert(lit_sat(a, spec_negate(f.1)) == !lit_sat(a, f.1));
    assert(clause_sat(a, cs[0]) <==> (!a[v] || lit_sat(a, f.0))) by {
        if !a[v] {
            assert(lit_sat(a, cs[0][0]));
        } else if lit_sat(a, f.0) {
            assert(lit_sat(a, cs[0][1]));
        }
    }
    assert(clause_sat(a, cs[1]) <==> (!a[v] || lit_sat(a, f.1))) by {
        if !a[v] {
            assert(lit_sat(a, cs[1][0]));
        } else if lit_sat(a, f.1) {
            assert(lit_sat(a, cs[1][1]));
        }
    }
    assert(clause_sat(a, cs[2]) <==> (a[v] || !lit_sat(a, f.0) || !lit_sat(a, f.1))) by {
        if a[v] {
            assert(lit_sat(a, cs[2][0]));
        } else if !lit_sat(a, f.0) {
            assert(lit_sat(a, cs[2][1]));
        } else if !lit_sat(a, f.1) {
            assert(lit_sat(a, cs[2][2]));
        }
    }
    if clause_sat(a, cs[0]) && clause_sat(a, cs[1]) && clause_sat(a, cs[2]) {
        assert(cnf_sat(a, cs)) by {
            assert forall|i: int| 0 <= i < cs.len() implies clause_sat(a, #[trigger] cs[i]) by {
                if i == 0 {
                } else if i == 1 {
                } else {
                    assert(i == 2);
                }
            }
        }
    }
}

/// A materialization on a state where every cone-marked node with a fanin
/// is already clausified emits nothing: structural clauses are emitted at
/// most once during the engine's lifetime.
pub proof fn lemma_no_reemission(s: Solver, k: int)
    requires
        forall|u: int| #[trigger] s.marked(u) && s.fanins()[u] is Some ==> s.is_clausified(u),
    ensures
        pending_clauses(s, k) == Seq::<Seq<Lit>>::empty(),
    decreases k,
{
    if k <= 0 {
    } else {
        lemma_no_reemission(s, k - 1);
        assert(emit_for(s, k - 1) =~= Seq::<Seq<Lit>>::empty());
        assert(pending_clauses(s, k) =~= Seq::<Seq<Lit>>::empty());
    }
}

/// Every structural clause a materialization emits defines a variable
/// that was never clausified before: each emitted clause starts with a
/// literal of the variable it encodes, and that variable's clausified
/// flag is still clear. Since every operation only ever sets clausified
/// flags, a variable's structural clauses are emitted at most once during
/// the engine's lifetime.
pub proof fn lemma_pending_defines_unclausified(s: Solver, k: int)
    requires
        s.wf(),
        k <= s.num_vars(),
    ensures
        forall|j: int|
            0 <= j < pending_clauses(s, k).len() ==> (#[trigger] pending_clauses(s, k)[j]).len()
                > 0 && !s.is_clausified(lit_var_spec(pending_clauses(s, k)[j][0])),
    decreases k,
{
    if k <= 0 {
    } else {
        lemma_pending_defines_unclausified(s, k - 1);
        let v = k - 1;
        assert forall|j: int| 0 <= j < pending_clauses(s, k).len() implies (
        #[trigger] pending_clauses(s, k)[j]).len() > 0 && !s.is_clausified(
            lit_var_spec(pending_clauses(s, k)[j][0]),
        ) by {
            if j < pending_clauses(s, v).len() {
                assert(pending_clauses(s, k)[j] == pending_clauses(s, v)[j]);
            } else {
                lemma_lit_roundtrip(v, true);
                lemma_lit_roundtrip(v, false);
                assert(!s.is_clausified(v));
                assert(lit_var_spec(pending_clauses(s, k)[j][0]) == v);
            }
        }
    }
}

/// The set of variables marked in the current round is finite and no
/// larger than the variable table.
proof fn lemma_marked_set_bounds(s: Solver)
    requires
        s.wf(),
    ensures
        s.marked_set().finite(),
        s.marked_set().len() <= s.num_vars(),
{
    lemma_int_range(0, s.num_vars());
    assert(s.marked_set() <= set_int_range(0, s.num_vars())) by {
        assert forall|u: int| s.marked_set().contains(u) implies set_int_range(
            0,
            s.num_vars(),
        ).contains(u) by {
            assert(s.marked(u));
        }
    }
    lemma_len_subset(s.marked_set(), set_int_range(0, s.num_vars()));
}

/// The incremental circuit-SAT engine.
#[derive(Debug)]
pub struct Solver {
    fanin: Vec<Option<(Lit, Lit)>>,
    mark: Vec<u64>,
    clausified: Vec<bool>,
    clauses: Vec<Vec<Lit>>,
    round: u64,
}

impl Solver {
    /// The number of variables allocated so far.
    pub closed spec fn num_vars(&self) -> int {
        self.fanin@.len() as int
    }

    /// The fanin store: one entry per variable.
    pub closed spec fn fanins(&self) -> Seq<Option<(Lit, Lit)>> {
        self.fanin@
    }

    /// The fanin graph over variable indices.
    pub open spec fn graph(&self) -> Seq<Option<(int, int)>> {
        graph_of(self.fanins())
    }

    /// The current round number.
    pub closed spec fn round_no(&self) -> int {
        self.round as int
    }

    /// Whether variable `u` is cone-marked in the current round.
    pub closed spec fn marked(&self, u: int) -> bool {
        0 <= u < self.mark@.len() && self.mark@[u] == self.round
    }

    /// The set of variables cone-marked in the current round.
    pub closed spec fn marked_set(&self) -> Set<int> {
        Set::new(|u: int| self.marked(u))
    }

    /// Whether variable `u`'s structural clauses have been emitted.
    pub closed spec fn is_clausified(&self, u: int) -> bool {
        0 <= u < self.clausified@.len() && self.clausified@[u]
    }

    /// The clause database: user clauses and structural clauses, in order
    /// of addition.
    pub closed spec fn clause_db(&self) -> Seq<Seq<Lit>> {
        db_view(self.clauses@)
    }

    /// Structural well-formedness of the engine state.
    pub closed spec fn wf(&self) -> bool {
        &&& self.mark@.len() == self.fanin@.len()
        &&& self.clausified@.len() == self.fanin@.len()
        &&& self.fanin@.len() <= MAX_VARS
        &&& self.round >= 1
        &&& forall|u: int| 0 <= u < self.mark@.len() ==> #[trigger] self.mark@[u] <= self.round
        &&& forall|u: int|
            0 <= u < self.fanin@.len() && (#[trigger] self.fanin@[u]) is Some ==> fanin_ok(
                self.fanin@[u]->Some_0,
                self.num_vars(),
            )
        &&& forall|u: int|
            0 <= u < self.clausified@.len() && (#[trigger] self.clausified@[u])
                ==> self.fanin@[u] is Some
        &&& cnf_in_range(self.clause_db(), self.num_vars())
    }

    /// The engine invariant: well-formed state whose current marks are
    /// closed under fanin edges.
    pub closed spec fn inv(&self) -> bool {
        self.wf() && cone_closed(self.graph(), self.marked_set())
    }

    /// Creates an engine with no variables, an empty clause database and
    /// the first round open.
    pub fn new() -> (r: Solver)
        ensures
            r.inv(),
            r.num_vars() == 0,
            r.round_no() == 1,
            r.fanins() == Seq::<Option<(Lit, Lit)>>::empty(),
            r.clause_db() == Seq::<Seq<Lit>>::empty(),
            forall|u: int| !r.marked(u),
            forall|u: int| !r.is_clausified(u),
    {
        let r = Solver {
            fanin: Vec::new(),
            mark: Vec::new(),
            clausified: Vec::new(),
            clauses: Vec::new(),
            round: 1,
        };
        proof {
            assert(r.fanins() =~= Seq::<Option<(Lit, Lit)>>::empty());
            assert(r.clause_db() =~= Seq::<Seq<Lit>>::empty());
        }
        r
    }

    /// Allocates a fresh variable; the returned index is the number of
    /// variables allocated before this call.
    pub fn add_var(&mut self) -> (r: Var)
        requires
            old(self).inv(),
            old(self).num_vars() < MAX_VARS,
        ensures
            final(self).inv(),
            r.0 as int == old(self).num_vars(),
            final(self).num_vars() == old(self).num_vars() + 1,
            final(self).fanins() == old(self).fanins().push(None),
            final(self).round_no() == old(self).round_no(),
            final(self).clause_db() == old(self).clause_db(),
            forall|u: int| final(self).marked(u) == old(self).marked(u),
            forall|u: int| final(self).is_clausified(u) == old(self).is_clausified(u),
    {
        let idx = self.fanin.len();
        self.fanin.push(None);
        self.mark.push(0);
        self.clausified.push(false);
        proof {
            assert(forall|u: int| self.marked(u) == old(self).marked(u));
            assert(self.marked_set() =~= old(self).marked_set());
            assert forall|u: int|
                0 <= u < self.graph().len() && self.marked_set().contains(u) && (#[trigger] self.graph()[u]) is Some
                implies self.marked_set().contains(self.graph()[u]->Some_0.0)
                && self.marked_set().contains(self.graph()[u]->Some_0.1) by {
                assert(u < old(self).num_vars());
                assert(self.graph()[u] == old(self).graph()[u]);
                assert(cone_closed(old(self).graph(), old(self).marked_set()));
            }
        }
        Var(idx as i32)
    }

    /// Records that `var` is driven by `AND(fanin0, fanin1)`. The fanin of
    /// a variable is set at most once, before the variable is cone-marked.
    pub fn set_fanin(&mut self, var: Var, fanin0: Lit, fanin1: Lit)
        requires
            old(self).inv(),
            0 <= var.0,
            (var.0 as int) < old(self).num_vars(),
            lit_wf(fanin0),
            lit_wf(fanin1),
            lit_var_spec(fanin0) < old(self).num_vars(),
            lit_var_spec(fanin1) < old(self).num_vars(),
            lit_var_spec(fanin0) < lit_var_spec(fanin1),
            old(self).fanins()[var.0 as int] is None,
            !old(self).marked(var.0 as int),
        ensures
            final(self).inv(),
            final(self).fanins() == old(self).fanins().update(
                var.0 as int,
                Some((fanin0, fanin1)),
            ),
            final(self).num_vars() == old(self).num_vars(),
            final(self).round_no() == old(self).round_no(),
            final(self).clause_db() == old(self).clause_db(),
            forall|u: int| final(self).marked(u) == old(self).marked(u),
            forall|u: int| final(self).is_clausified(u) == old(self).is_clausified(u),
    {
        let v = var.0 as usize;
        self.fanin.set(v, Some((fanin0, fanin1)));
        proof {
            assert(self.marked_set() =~= old(self).marked_set());
            assert forall|u: int|
                0 <= u < self.graph().len() && self.marked_set().contains(u) && (#[trigger] self.graph()[u]) is Some
                implies self.marked_set().contains(self.graph()[u]->Some_0.0)
                && self.marked_set().contains(self.graph()[u]->Some_0.1) by {
                assert(u != var.0 as int);
                assert(self.graph()[u] == old(self).graph()[u]);
                assert(cone_closed(old(self).graph(), old(self).marked_set()));
            }
        }
    }

    /// Opens a fresh round: the round counter increases and no variable is
    /// cone-marked any more. Variable, fanin and clause data are kept.
    pub fn new_round(&mut self)
        requires
            old(self).inv(),
            old(self).round_no() < u64::MAX,
        ensures
            final(self).inv(),
            final(self).round_no() == old(self).round_no() + 1,
            final(self).num_vars() == old(self).num_vars(),
            final(self).fanins() == old(self).fanins(),
            final(self).clause_db() == old(self).clause_db(),
            forall|u: int| !final(self).marked(u),
            forall|u: int| final(self).is_clausified(u) == old(self).is_clausified(u),
    {
        self.round = self.round + 1;
        proof {
            assert(forall|u: int| !self.marked(u));
        }
    }

    /// Marks `v` and, recursively, everything reachable backward from it
    /// over fanin edges, stopping at nodes already marked in this round.
    /// `pending` carries the nodes whose closure obligation the enclosing
    /// calls will discharge.
    fn mark_rec(&mut self, v: usize, pending: Ghost<Set<int>>)
        requires
            old(self).wf(),
            (v as int) < old(self).num_vars(),
            cone_closed_except(old(self).graph(), old(self).marked_set(), pending@),
        ensures
            final(self).wf(),
            final(self).num_vars() == old(self).num_vars(),
            final(self).fanins() == old(self).fanins(),
            final(self).round_no() == old(self).round_no(),
            final(self).clause_db() == old(self).clause_db(),
            forall|u: int| final(self).is_clausified(u) == old(self).is_clausified(u),
            forall|u: int| old(self).marked(u) ==> final(self).marked(u),
            final(self).marked(v as int),
            forall|u: int|
                #[trigger] final(self).marked(u) ==> old(self).marked(u) || in_cone(
                    old(self).graph(),
                    v as int,
                    u,
                ),
            cone_closed_except(final(self).graph(), final(self).marked_set(), pending@),
        decreases old(self).num_vars() - old(self).marked_set().len(),
    {
        proof {
            lemma_marked_set_bounds(*old(self));
        }
        if self.mark[v] == self.round {
            proof {
                lemma_in_cone_refl(old(self).graph(), v as int);
            }
            return ;
        }
        let ghost g = old(self).graph();
        let fan = self.fanin[v];
        self.mark.set(v, self.round);
        proof {
            assert(self.marked_set() =~= old(self).marked_set().insert(v as int));
            lemma_in_cone_refl(g, v as int);
            assert forall|u: int|
                0 <= u < g.len() && self.marked_set().contains(u) && !pending@.insert(
                    v as int,
                ).contains(u) && (#[trigger] g[u]) is Some implies self.marked_set().contains(
                g[u]->Some_0.0,
            ) && self.marked_set().contains(g[u]->Some_0.1) by {
                assert(old(self).marked_set().contains(u));
            }
            assert(cone_closed_except(g, self.marked_set(), pending@.insert(v as int)));
        }
        match fan {
            None => {
                proof {
                    assert forall|u: int|
                        0 <= u < g.len() && self.marked_set().contains(u) && !pending@.contains(u)
                            && (#[trigger] g[u]) is Some implies self.marked_set().contains(
                        g[u]->Some_0.0,
                    ) && self.marked_set().contains(g[u]->Some_0.1) by {
                        assert(g[v as int] == fanin_vars(old(self).fanins()[v as int]));
                        assert(g[v as int] is None);
                        assert(u != v as int);
                        assert(old(self).marked_set().contains(u));
                        assert(cone_closed_except(g, old(self).marked_set(), pending@));
                        assert(old(self).marked_set().contains(g[u]->Some_0.0));
                        assert(old(self).marked_set().contains(g[u]->Some_0.1));
                    }
                }
            },
            Some((f0, f1)) => {
                let c0 = f0.var().0 as usize;
                let c1 = f1.var().0 as usize;
                let ghost mid0 = *self;
                proof {
                    lemma_marked_set_bounds(*self);
                    assert(old(self).marked_set().insert(v as int).len() == old(
                        self,
                    ).marked_set().len() + 1);
                }
                self.mark_rec(c0, Ghost(pending@.insert(v as int)));
                let ghost mid1 = *self;
                proof {
                    lemma_marked_set_bounds(*self);
                    assert(mid0.marked_set() <= self.marked_set());
                    lemma_len_subset(mid0.marked_set(), self.marked_set());
                }
                self.mark_rec(c1, Ghost(pending@.insert(v as int)));
                proof {
                    // The graph never changes.
                    assert(self.graph() == g);
                    // Closure up to `pending`: the one node taken out of
                    // `pending`, namely `v`, now has both children marked.
                    assert(g[v as int] == fanin_vars(old(self).fanins()[v as int]));
                    assert(g[v as int]->Some_0.0 == c0 as int);
                    assert(g[v as int]->Some_0.1 == c1 as int);
                    assert(self.marked(c0 as int));
                    assert(self.marked(c1 as int));
                    assert forall|u: int|
                        0 <= u < g.len() && self.marked_set().contains(u) && !pending@.contains(u)
                            && (#[trigger] g[u]) is Some implies self.marked_set().contains(
                        g[u]->Some_0.0,
                    ) && self.marked_set().contains(g[u]->Some_0.1) by {
                        if u == v as int {
                            assert(self.marked_set().contains(c0 as int));
                            assert(self.marked_set().contains(c1 as int));
                        } else {
                            assert(cone_closed_except(
                                g,
                                self.marked_set(),
                                pending@.insert(v as int),
                            ));
                        }
                    }
                    // Everything newly marked lies in the cone of `v`.
                    lemma_in_cone_child(g, v as int, c0 as int);
                    lemma_in_cone_child(g, v as int, c1 as int);
                    assert forall|u: int| #[trigger] self.marked(u) implies old(self).marked(u)
                        || in_cone(g, v as int, u) by {
                        if !old(self).marked(u) {
                            if u == v as int {
                                assert(in_cone(g, v as int, u));
                            } else if mid1.marked(u) && !mid0.marked(u) {
                                assert(in_cone(g, c0 as int, u));
                                lemma_in_cone_trans(g, v as int, c0 as int, u);
                            } else if !mid1.marked(u) {
                                assert(in_cone(g, c1 as int, u));
                                lemma_in_cone_trans(g, v as int, c1 as int, u);
                            }
                        }
                    }
                }
            },
        }
    }

    /// Cone-marks `var` for the current round: after the call a variable
    /// is marked exactly when it was already marked or lies in the
    /// backward cone of `var` over the recorded fanin edges.
    pub fn mark_cone(&mut self, var: Var)
        requires
            old(self).inv(),
            0 <= var.0,
            (var.0 as int) < old(self).num_vars(),
        ensures
            final(self).inv(),
            final(self).num_vars() == old(self).num_vars(),
            final(self).fanins() == old(self).fanins(),
            final(self).round_no() == old(self).round_no(),
            final(self).clause_db() == old(self).clause_db(),
            forall|u: int| final(self).is_clausified(u) == old(self).is_clausified(u),
            forall|u: int|
                #[trigger] final(self).marked(u) <==> old(self).marked(u) || in_cone(
                    old(self).graph(),
                    var.0 as int,
                    u,
                ),
    {
        let ghost g = old(self).graph();
        proof {
            assert(cone_closed_except(g, old(self).marked_set(), Set::<int>::empty()));
        }
        self.mark_rec(var.0 as usize, Ghost(Set::empty()));
        proof {
            assert(cone_closed(g, self.marked_set())) by {
                assert forall|u: int|
                    0 <= u < g.len() && self.marked_set().contains(u) && (#[trigger] g[u]) is Some
                        implies self.marked_set().contains(g[u]->Some_0.0)
                    && self.marked_set().contains(g[u]->Some_0.1) by {
                    assert(cone_closed_except(g, self.marked_set(), Set::<int>::empty()));
                    assert(!Set::<int>::empty().contains(u));
                }
            }
            assert forall|u: int| in_cone(g, var.0 as int, u) implies self.marked(u) by {
                assert(cone_closed(g, self.marked_set()));
                assert(self.marked_set().contains(var.0 as int));
                assert(self.marked_set().contains(u));
            }
        }
    }

    /// Permanently adds a disjunctive clause over the given literals.
    pub fn add_clause(&mut self, clause: &[Lit])
        requires
            old(self).inv(),
            lits_in_range(clause@, old(self).num_vars()),
        ensures
            final(self).inv(),
            final(self).clause_db() == old(self).clause_db().push(clause@),
            final(self).num_vars() == old(self).num_vars(),
            final(self).fanins() == old(self).fanins(),
            final(self).round_no() == old(self).round_no(),
            forall|u: int| final(self).marked(u) == old(self).marked(u),
            forall|u: int| final(self).is_clausified(u) == old(self).is_clausified(u),
    {
        let mut c: Vec<Lit> = Vec::new();
        let mut i: usize = 0;
        while i < clause.len()
            invariant
                i <= clause@.len(),
                c@ == clause@.subrange(0, i as int),
            decreases clause@.len() - i,
        {
            c.push(clause[i]);
            proof {
                assert(c@ =~= clause@.subrange(0, i + 1));
            }
            i = i + 1;
        }
        proof {
            assert(c@ =~= clause@);
        }
        self.clauses.push(c);
        proof {
            assert(self.clause_db() =~= old(self).clause_db().push(clause@));
            assert(self.marked_set() =~= old(self).marked_set());
        }
    }
    /// Emits the structural clauses of every cone-marked, never-clausified
    /// variable with a recorded fanin, in increasing variable order, and
    /// records each as clausified.
    fn materialize(&mut self)
        requires
            old(self).inv(),
        ensures
            final(self).inv(),
            final(self).num_vars() == old(self).num_vars(),
            final(self).fanins() == old(self).fanins(),
            final(self).round_no() == old(self).round_no(),
            forall|u: int| final(self).marked(u) == old(self).marked(u),
            forall|u: int|
                #[trigger] final(self).is_clausified(u) <==> old(self).is_clausified(u) || (old(
                    self,
                ).marked(u) && old(self).fanins()[u] is Some),
            final(self).clause_db() == old(self).clause_db() + pending_clauses(
                *old(self),
                old(self).num_vars(),
            ),
    {
        let ghost s0: Solver = *old(self);
        let n = self.fanin.len();
        proof {
            assert(self.clause_db() =~= s0.clause_db() + pending_clauses(s0, 0));
        }
        let mut v: usize = 0;
        while v < n
            invariant
                v <= n,
                s0.inv(),
                n == s0.num_vars(),
                self.wf(),
                self.num_vars() == s0.num_vars(),
                self.fanins() == s0.fanins(),
                self.round_no() == s0.round_no(),
                forall|u: int| self.marked(u) == s0.marked(u),
                forall|u: int|
                    #[trigger] self.is_clausified(u) <==> s0.is_clausified(u) || (s0.marked(u)
                        && s0.fanins()[u] is Some && u < v),
                self.clause_db() == s0.clause_db() + pending_clauses(s0, v as int),
            decreases n - v,
        {
            let marked_now = self.mark[v] == self.round;
            let claus_now = self.clausified[v];
            let fan = self.fanin[v];
            if marked_now && !claus_now {
                if let Some((f0, f1)) = fan {
                    let vl = Var(v as i32);
                    let nv = Lit::new(vl, true);
                    let pv = Lit::new(vl, false);
                    let nf0 = f0.negate();
                    let nf1 = f1.negate();
                    let ghost before = *self;
                    self.clauses.push(vec![nv, f0]);
                    self.clauses.push(vec![nv, f1]);
                    self.clauses.push(vec![pv, nf0, nf1]);
                    self.clausified.set(v, true);
                    proof {
                        assert(!before.is_clausified(v as int));
                        assert(before.marked(v as int));
                        assert(s0.marked(v as int));
                        assert(!s0.is_clausified(v as int));
                        assert forall|u: int| #[trigger] self.is_clausified(u) <==> (
                        s0.is_clausified(u) || (s0.marked(u) && s0.fanins()[u] is Some && u < v
                            as int + 1)) by {
                            if u == v as int {
                                assert(self.is_clausified(u));
                            } else {
                                assert(self.is_clausified(u) == before.is_clausified(u));
                            }
                        }
                        assert(s0.fanins()[v as int] == Some((f0, f1)));
                        assert(emit_for(s0, v as int) == and_gate_clauses(v as int, (f0, f1)));
                        assert(self.clause_db() =~= before.clause_db() + and_gate_clauses(
                            v as int,
                            (f0, f1),
                        ));
                        assert(self.clause_db() =~= s0.clause_db() + pending_clauses(
                            s0,
                            v as int + 1,
                        ));
                    }
                }
            }
            proof {
                if !(marked_now && !claus_now && fan is Some) {
                    assert(marked_now == s0.marked(v as int));
                    assert(claus_now == self.is_clausified(v as int));
                    assert(fan == s0.fanins()[v as int]);
                    assert(emit_for(s0, v as int) =~= Seq::<Seq<Lit>>::empty());
                    assert(self.clause_db() =~= s0.clause_db() + pending_clauses(s0, v as int + 1));
                    assert forall|u: int| #[trigger] self.is_clausified(u) <==> (
                    s0.is_clausified(u) || (s0.marked(u) && s0.fanins()[u] is Some && u < v as int
                        + 1)) by {
                        if u == v as int {
                            if claus_now {
                                assert(self.is_clausified(u));
                            } else {
                                assert(!(s0.marked(u) && s0.fanins()[u] is Some
                                    && !s0.is_clausified(u)));
                            }
                        }
                    }
                }
            }
            v = v + 1;
        }
        proof {
            assert(self.marked_set() =~= s0.marked_set());
            assert(cone_closed(self.graph(), self.marked_set()));
        }
    }

    /// Runs the lazy clausifier for the current round's marked set, then
    /// decides satisfiability of the whole clause database under the given
    /// assumption literals. Returns a model — one literal per variable,
    /// non-negated exactly where the variable is true — when satisfiable,
    /// and `None` exactly when unsatisfiable.
    pub fn solve(&mut self, assumptions: &[Lit]) -> (r: Option<Vec<Lit>>)
        requires
            old(self).inv(),
            lits_in_range(assumptions@, old(self).num_vars()),
        ensures
            final(self).inv(),
            final(self).num_vars() == old(self).num_vars(),
            final(self).fanins() == old(self).fanins(),
            final(self).round_no() == old(self).round_no(),
            forall|u: int| final(self).marked(u) == old(self).marked(u),
            forall|u: int|
                #[trigger] final(self).is_clausified(u) <==> old(self).is_clausified(u) || (old(
                    self,
                ).marked(u) && old(self).fanins()[u] is Some),
            final(self).clause_db() == old(self).clause_db() + pending_clauses(
                *old(self),
                old(self).num_vars(),
            ),
            (r is Some) <==> (exists|a: Seq<bool>|
                a.len() == old(self).num_vars() && full_sat(
                    a,
                    final(self).clause_db(),
                    assumptions@,
                )),
            r matches Some(m) ==> ({
                &&& m@.len() == old(self).num_vars()
                &&& forall|i: int|
                    0 <= i < m@.len() ==> #[trigger] m@[i] == mk_lit(i, !assignment_of(m@)[i])
                &&& full_sat(assignment_of(m@), final(self).clause_db(), assumptions@)
            }),
    {
        self.materialize();
        let n = self.fanin.len();
        let res = search(&self.clauses, assumptions, n);
        match res {
            None => {
                proof {
                    assert(forall|a: Seq<bool>|
                        a.len() == old(self).num_vars() ==> !full_sat(
                            a,
                            self.clause_db(),
                            assumptions@,
                        ));
                }
                None
            },
            Some(af) => {
                let m = Self::extract_model(&af);
                proof {
                    assert(full_sat(af@, self.clause_db(), assumptions@));
                    assert(assignment_of(m@) == af@);
                }
                Some(m)
            },
        }
    }

    /// Turns a boolean assignment into the model literal sequence: the
    /// `i`-th literal refers to variable `i` and is non-negated exactly
    /// where the variable is true.
    fn extract_model(af: &Vec<bool>) -> (m: Vec<Lit>)
        requires
            af@.len() <= LIT_VAR_LIMIT,
        ensures
            m@.len() == af@.len(),
            forall|i: int| 0 <= i < m@.len() ==> #[trigger] m@[i] == mk_lit(i, !af@[i]),
            assignment_of(m@) == af@,
    {
        let mut m: Vec<Lit> = Vec::new();
        let mut i: usize = 0;
        while i < af.len()
            invariant
                i <= af@.len(),
                af@.len() <= LIT_VAR_LIMIT,
                m@.len() == i,
                forall|j: int| 0 <= j < i ==> #[trigger] m@[j] == mk_lit(j, !af@[j]),
            decreases af@.len() - i,
        {
            m.push(Lit::new(Var(i as i32), !af[i]));
            i = i + 1;
        }
        proof {
            assert forall|j: int| 0 <= j < m@.len() implies assignment_of(m@)[j] == af@[j] by {
                lemma_lit_roundtrip(j, !af@[j]);
            }
            assert(assignment_of(m@) =~= af@);
        }
        m
    }
}

impl Default for Solver {
    /// Same as `Solver::new`.
    fn default() -> (r: Solver)
        ensures
            r.inv(),
            r.num_vars() == 0,
            r.round_no() == 1,
            r.clause_db() == Seq::<Seq<Lit>>::empty(),
    {
        Solver::new()
    }
}

} // verus!
