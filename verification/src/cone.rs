//! Backward logic cones over the fanin graph.
//!
//! The fanin graph is a sequence with one entry per variable: `None` for a
//! primary input, `Some((a, b))` for a node driven by the variables `a` and
//! `b`. The cone of a node is the least set of variables that contains it
//! and is closed under following fanin edges backward.

use vstd::prelude::*;

verus! {

/// `s` is closed under fanin edges: whenever it contains a node with a
/// recorded fanin, it also contains both driving variables.
pub open spec fn cone_closed(g: Seq<Option<(int, int)>>, s: Set<int>) -> bool {
    forall|u: int|
        0 <= u < g.len() && s.contains(u) && (#[trigger] g[u]) is Some ==> s.contains(
            g[u]->Some_0.0,
        ) && s.contains(g[u]->Some_0.1)
}

/// `s` is closed under fanin edges except possibly at the nodes of `p`,
/// whose obligations are still pending.
pub open spec fn cone_closed_except(g: Seq<Option<(int, int)>>, s: Set<int>, p: Set<int>) -> bool {
    forall|u: int|
        0 <= u < g.len() && s.contains(u) && !p.contains(u) && (#[trigger] g[u]) is Some
            ==> s.contains(g[u]->Some_0.0) && s.contains(g[u]->Some_0.1)
}

/// `u` lies in the backward cone of `v`: every fanin-closed set that
/// contains `v` contains `u`. This is reachability from `v` along recorded
/// fanin edges, stated as the least closed set.
pub open spec fn in_cone(g: Seq<Option<(int, int)>>, v: int, u: int) -> bool {
    forall|s: Set<int>| (#[trigger] cone_closed(g, s)) && s.contains(v) ==> s.contains(u)
}

/// Every node lies in its own cone.
pub proof fn lemma_in_cone_refl(g: Seq<Option<(int, int)>>, v: int)
    ensures
        in_cone(g, v, v),
{
}

/// The driving variables of a node lie in its cone.
pub proof fn lemma_in_cone_child(g: Seq<Option<(int, int)>>, v: int, u: int)
    requires
        0 <= v < g.len(),
        g[v] is Some,
        u == g[v]->Some_0.0 || u == g[v]->Some_0.1,
    ensures
        in_cone(g, v, u),
{
}

/// Cone membership is transitive.
pub proof fn lemma_in_cone_trans(g: Seq<Option<(int, int)>>, v: int, w: int, u: int)
    requires
        in_cone(g, v, w),
        in_cone(g, w, u),
    ensures
        in_cone(g, v, u),
{
    assert forall|s: Set<int>| #[trigger] cone_closed(g, s) && s.contains(v) implies s.contains(
        u,
    ) by {
        assert(s.contains(w));
    }
}

} // verus!
