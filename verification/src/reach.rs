//! Reachability in a graph of names.
use vstd::prelude::*;
use crate::allows::{has_edge, Graph};

verus! {

/// Whether `p` lists at least two nodes, each joined to the next by an edge
/// of `g`.
pub open spec fn is_walk(g: Graph, p: Seq<Seq<char>>) -> bool {
    p.len() >= 2 && forall|k: int| 0 <= k < p.len() - 1 ==> has_edge(g, #[trigger] p[k], p[k + 1])
}

/// Whether `t` can be reached from `s` along one or more edges of `g`.
pub open spec fn reaches(g: Graph, s: Seq<char>, t: Seq<char>) -> bool {
    exists|p: Seq<Seq<char>>| is_walk(g, p) && p[0] == s && #[trigger] p.last() == t
}

/// An edge is a walk of one step.
pub proof fn lemma_edge_reaches(g: Graph, s: Seq<char>, t: Seq<char>)
    requires
        has_edge(g, s, t),
    ensures
        reaches(g, s, t),
{
    let p = seq![s, t];
    assert(is_walk(g, p));
    assert(p[0] == s && p.last() == t);
}

/// A walk followed by an edge is a walk.
pub proof fn lemma_reaches_then_edge(g: Graph, s: Seq<char>, u: Seq<char>, t: Seq<char>)
    requires
        reaches(g, s, u),
        has_edge(g, u, t),
    ensures
        reaches(g, s, t),
{
    let p = choose|p: Seq<Seq<char>>| is_walk(g, p) && p[0] == s && #[trigger] p.last() == u;
    let q = p.push(t);
    assert forall|k: int| 0 <= k < q.len() - 1 implies has_edge(g, #[trigger] q[k], q[k + 1]) by {
        if k < p.len() - 1 {
            assert(q[k] == p[k] && q[k + 1] == p[k + 1]);
        } else {
            assert(q[k] == u);
        }
    }
    assert(is_walk(g, q));
    assert(q[0] == s && q.last() == t);
}

/// A set of nodes that holds every direct target of `s` and every direct
/// target of each of its own members holds every node reachable from `s`.
pub proof fn lemma_closed_set_holds_reachable(
    g: Graph,
    s: Seq<char>,
    seen: Seq<Seq<char>>,
    t: Seq<char>,
)
    requires
        forall|x: Seq<char>| has_edge(g, s, x) ==> seen.contains(x),
        forall|u: Seq<char>, v: Seq<char>| seen.contains(u) && has_edge(g, u, v) ==> seen.contains(v),
        reaches(g, s, t),
    ensures
        seen.contains(t),
{
    let p = choose|p: Seq<Seq<char>>| is_walk(g, p) && p[0] == s && #[trigger] p.last() == t;
    lemma_walk_stays_in(g, s, seen, p, p.len() - 1);
}

proof fn lemma_walk_stays_in(g: Graph, s: Seq<char>, seen: Seq<Seq<char>>, p: Seq<Seq<char>>, n: int)
    requires
        forall|x: Seq<char>| has_edge(g, s, x) ==> seen.contains(x),
        forall|u: Seq<char>, v: Seq<char>| seen.contains(u) && has_edge(g, u, v) ==> seen.contains(v),
        is_walk(g, p),
        p[0] == s,
        1 <= n < p.len(),
    ensures
        seen.contains(p[n]),
    decreases n,
{
    assert(has_edge(g, p[n - 1], p[n - 1 + 1]));
    if n > 1 {
        lemma_walk_stays_in(g, s, seen, p, n - 1);
    }
}

/// The targets of all sources of `g`, one source after another.
pub open spec fn all_targets(g: Graph) -> Seq<Seq<char>>
    decreases g.len(),
{
    if g.len() == 0 {
        Seq::empty()
    } else {
        all_targets(g.drop_last()) + g.last().1
    }
}

/// Every node that an edge leads to is among the targets of the graph.
pub proof fn lemma_edge_target_listed(g: Graph, s: Seq<char>, t: Seq<char>)
    requires
        has_edge(g, s, t),
    ensures
        all_targets(g).contains(t),
    decreases g.len(),
{
    let i = choose|i: int| 0 <= i < g.len() && #[trigger] g[i].0 == s && g[i].1.contains(t);
    if i == g.len() - 1 {
        let k = choose|k: int| 0 <= k < g.last().1.len() && g.last().1[k] == t;
        assert(all_targets(g)[all_targets(g.drop_last()).len() + k] == t);
    } else {
        assert(g.drop_last()[i] == g[i]);
        lemma_edge_target_listed(g.drop_last(), s, t);
        let k = choose|k: int|
            0 <= k < all_targets(g.drop_last()).len() && all_targets(g.drop_last())[k] == t;
        assert(all_targets(g)[k] == t);
    }
}

/// Every node that can be reached is among the targets of the graph.
pub proof fn lemma_reached_listed(g: Graph, s: Seq<char>, t: Seq<char>)
    requires
        reaches(g, s, t),
    ensures
        all_targets(g).contains(t),
{
    let p = choose|p: Seq<Seq<char>>| is_walk(g, p) && p[0] == s && #[trigger] p.last() == t;
    let n = p.len() - 2;
    assert(has_edge(g, p[n], p[n + 1]));
    lemma_edge_target_listed(g, p[n], t);
}

} // verus!
