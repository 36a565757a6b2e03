//! The dependency graph of a rules document: its transitive closure, the
//! edges that close a cycle, and the diagram drawn from them.
use vstd::prelude::*;
use crate::allows::{graph_sorted, has_edge, has_source, sources_of, AllowsMap, Graph};
use crate::names::{lemma_sorted_no_duplicates, lemma_sorted_unique, strictly_sorted, NameSet};
use crate::order::lemma_lex_irreflexive;
use crate::reach::{
    all_targets, lemma_closed_set_holds_reachable, lemma_edge_reaches, lemma_reached_listed,
    lemma_reaches_then_edge, reaches,
};
use crate::rules::{deny_all, DENY_ALL, RulesDocument};
use crate::text::{append_text, decimal, decimal_text, join_texts, join_with, text_eq};

verus! {

/// In a graph with sorted sources, an edge from the source at position `i`
/// leads to one of the targets listed at that position.
pub proof fn lemma_edge_at(g: Graph, i: int, t: Seq<char>)
    requires
        graph_sorted(g),
        0 <= i < g.len(),
    ensures
        has_edge(g, g[i].0, t) <==> g[i].1.contains(t),
{
    if has_edge(g, g[i].0, t) {
        let j = choose|j: int| 0 <= j < g.len() && #[trigger] g[j].0 == g[i].0 && g[j].1.contains(t);
        if j != i {
            let keys = sources_of(g);
            assert(keys[i] == g[i].0 && keys[j] == g[j].0);
            lemma_lex_irreflexive(g[i].0);
        }
    }
}

/// Pushes the names of `set` onto `stack`.
fn push_all(stack: &mut Vec<String>, set: &NameSet)
    ensures
        final(stack).deep_view() == old(stack).deep_view() + set@,
{
    let ghost before = stack.deep_view();
    let mut k: usize = 0;
    while k < set.len()
        invariant
            k <= set@.len(),
            stack.deep_view() == before + set@.take(k as int),
        decreases set@.len() - k,
    {
        let ghost prev = stack.deep_view();
        stack.push(set.get(k).clone());
        assert(stack.deep_view() =~= prev.push(set@[k as int]));
        assert(set@.take(k + 1) =~= set@.take(k as int).push(set@[k as int]));
        k += 1;
    }
    assert(set@.take(set@.len() as int) =~= set@);
}

/// The nodes that can be reached from the source at position `i` along one
/// or more edges.
pub fn reachable_from(direct_allows: &AllowsMap, i: usize) -> (r: NameSet)
    requires
        i < direct_allows@.len(),
    ensures
        strictly_sorted(r@),
        forall|t: Seq<char>| r@.contains(t) <==> reaches(direct_allows@, direct_allows@[i as int].0, t),
{
    let ghost g = direct_allows@;
    let ghost s = g[i as int].0;
    let ghost universe = all_targets(g).to_set();
    let n: usize = direct_allows.len();
    let mut seen = NameSet::new();
    let mut to_visit: Vec<String> = Vec::new();
    assert(to_visit.deep_view() =~= Seq::<Seq<char>>::empty());
    push_all(&mut to_visit, direct_allows.targets(i));
    proof {
        vstd::seq_lib::seq_to_set_is_finite(all_targets(g));
        assert forall|t: Seq<char>| has_edge(g, s, t) implies to_visit.deep_view().contains(t) by {
            lemma_edge_at(g, i as int, t);
        }
        assert forall|k: int| 0 <= k < to_visit.len() implies reaches(
            g,
            s,
            #[trigger] to_visit.deep_view()[k],
        ) by {
            assert(g[i as int].1.contains(to_visit.deep_view()[k]));
            lemma_edge_at(g, i as int, to_visit.deep_view()[k]);
            lemma_edge_reaches(g, s, to_visit.deep_view()[k]);
        }
    }
    while to_visit.len() > 0
        invariant
            g == direct_allows@,
            graph_sorted(g),
            universe == all_targets(g).to_set(),
            universe.finite(),
            strictly_sorted(seen@),
            seen@.len() <= universe.len(),
            forall|x: Seq<char>| seen@.contains(x) ==> reaches(g, s, x),
            forall|k: int| 0 <= k < to_visit.len() ==> reaches(g, s, #[trigger] to_visit.deep_view()[k]),
            forall|t: Seq<char>|
                has_edge(g, s, t) ==> seen@.contains(t) || to_visit.deep_view().contains(t),
            forall|u: Seq<char>, v: Seq<char>|
                seen@.contains(u) && has_edge(g, u, v) ==> seen@.contains(v)
                    || to_visit.deep_view().contains(v),
        decreases universe.len() - seen@.len(), to_visit.len(),
    {
        let ghost stack_before = to_visit.deep_view();
        let ghost seen_before = seen@;
        let current = to_visit.pop().unwrap();
        let ghost c = current@;
        let ghost rest = to_visit.deep_view();
        proof {
            assert(rest =~= stack_before.drop_last());
            assert(stack_before.last() == c);
            assert forall|x: Seq<char>| stack_before.contains(x) implies rest.contains(x) || x
                == c by {
                let k = choose|k: int| 0 <= k < stack_before.len() && stack_before[k] == x;
                if k < rest.len() {
                    assert(rest[k] == x);
                }
            }
            assert forall|k: int| 0 <= k < rest.len() implies reaches(g, s, #[trigger] rest[k]) by {
                assert(rest[k] == stack_before[k]);
            }
            assert(reaches(g, s, c));
        }
        if !seen.contains(current.as_str()) {
            let found = direct_allows.get(current.as_str());
            seen.insert(current);
            proof {
                lemma_sorted_no_duplicates(seen@);
                seen@.unique_seq_to_set();
                assert forall|x: Seq<char>| seen@.to_set().contains(x) implies universe.contains(
                    x,
                ) by {
                    assert(seen@.contains(x));
                    assert(reaches(g, s, x));
                    lemma_reached_listed(g, s, x);
                }
                vstd::set_lib::lemma_len_subset(seen@.to_set(), universe);
                lemma_sorted_no_duplicates(seen_before);
                seen_before.unique_seq_to_set();
                assert(!seen_before.to_set().contains(c));
                assert(seen@.to_set() =~= seen_before.to_set().insert(c));
            }
            match found {
                Some(allows) => {
                    push_all(&mut to_visit, allows);
                    proof {
                        let j = choose|j: int|
                            0 <= j < g.len() && (#[trigger] g[j]).0 == c && allows@ == g[j].1;
                        let stack = to_visit.deep_view();
                        assert(stack == rest + allows@);
                        assert forall|x: Seq<char>| rest.contains(x) implies stack.contains(x) by {
                            let k = choose|k: int| 0 <= k < rest.len() && rest[k] == x;
                            assert(stack[k] == x);
                        }
                        assert forall|v: Seq<char>| has_edge(g, c, v) implies stack.contains(v) by {
                            lemma_edge_at(g, j, v);
                            let k = choose|k: int| 0 <= k < allows@.len() && allows@[k] == v;
                            assert(stack[rest.len() + k] == v);
                        }
                        assert forall|k: int| 0 <= k < stack.len() implies reaches(
                            g,
                            s,
                            #[trigger] stack[k],
                        ) by {
                            if k >= rest.len() {
                                assert(stack[k] == allows@[k - rest.len()]);
                                assert(allows@.contains(stack[k]));
                                lemma_edge_at(g, j, stack[k]);
                                lemma_reaches_then_edge(g, s, c, stack[k]);
                            } else {
                                assert(stack[k] == rest[k]);
                            }
                        }
                    }
                },
                None => {
                    proof {
                        assert forall|v: Seq<char>| !has_edge(g, c, v) by {
                            if has_edge(g, c, v) {
                                let j = choose|j: int|
                                    0 <= j < g.len() && #[trigger] g[j].0 == c && g[j].1.contains(v);
                                assert(has_source(g, c));
                            }
                        }
                    }
                },
            }
        }
    }
    proof {
        assert forall|t: Seq<char>| reaches(g, s, t) implies seen@.contains(t) by {
            lemma_closed_set_holds_reachable(g, s, seen@, t);
        }
    }
    seen
}

/// The transitive closure of `direct_allows`: the same sources, each with
/// every node that can be reached from it along one or more edges. A source
/// is among its own targets only where a cycle leads back to it.
pub fn get_transitive_allows(direct_allows: &AllowsMap) -> (r: AllowsMap)
    ensures
        graph_sorted(r@),
        r@.len() == direct_allows@.len(),
        forall|i: int| 0 <= i < r@.len() ==> (#[trigger] r@[i]).0 == direct_allows@[i].0,
        forall|i: int, t: Seq<char>|
            0 <= i < r@.len() ==> (#[trigger] r@[i].1.contains(t) <==> reaches(
                direct_allows@,
                direct_allows@[i].0,
                t,
            )),
{
    let ghost g = direct_allows@;
    let mut transitive_allows = AllowsMap::new();
    let n: usize = direct_allows.len();
    let mut i: usize = 0;
    while i < n
        invariant
            i <= n,
            n == g.len(),
            g == direct_allows@,
            graph_sorted(g),
            graph_sorted(transitive_allows@),
            transitive_allows@.len() == i,
            forall|k: int| 0 <= k < i ==> (#[trigger] transitive_allows@[k]).0 == g[k].0,
            forall|k: int, t: Seq<char>|
                0 <= k < i ==> (#[trigger] transitive_allows@[k].1.contains(t) <==> reaches(
                    g,
                    g[k].0,
                    t,
                )),
        decreases n - i,
    {
        let ghost before = transitive_allows@;
        let reach = reachable_from(direct_allows, i);
        let at: usize = transitive_allows.insert_source(direct_allows.source(i).clone());
        proof {
            let keys = sources_of(g);
            assert(keys[i as int] == g[i as int].0);
            assert forall|k: int| 0 <= k < before.len() implies (#[trigger] before[k]).0
                != g[i as int].0 by {
                assert(keys[k] == g[k].0);
                lemma_lex_irreflexive(keys[k]);
            }
            assert(!has_source(before, g[i as int].0));
            let mid = transitive_allows@;
            if at < i {
                let mkeys = sources_of(mid);
                assert(mkeys[at as int] == mid[at as int].0);
                assert(mkeys[at + 1] == mid[at + 1].0);
                assert(mid[at + 1] == before[at as int]);
                assert(keys[at as int] == g[at as int].0);
                crate::order::lemma_lex_asymmetric(keys[at as int], keys[i as int]);
            }
            assert(at == i);
        }
        transitive_allows.set_targets(at, reach);
        proof {
            let after = transitive_allows@;
            assert forall|k: int| 0 <= k < i + 1 implies (#[trigger] after[k]).0 == g[k].0 by {
                if k < i {
                    assert(after[k] == before[k]);
                }
            }
            assert forall|k: int, t: Seq<char>| 0 <= k < i + 1 implies (#[trigger] after[k].1.contains(t) <==> reaches(
                g,
                g[k].0,
                t,
            )) by {
                if k < i {
                    assert(after[k] == before[k]);
                }
            }
        }
        i += 1;
    }
    transitive_allows
}

/// Whether `g` is the allow graph of the rules `doc`: it has the sources of
/// `doc` and its edges, but for those that lead to the mark for "nothing",
/// and it is sorted.
pub open spec fn is_allow_graph_of(g: Graph, doc: Graph) -> bool {
    &&& graph_sorted(g)
    &&& forall|a: Seq<char>| has_source(g, a) <==> has_source(doc, a)
    &&& forall|a: Seq<char>, b: Seq<char>|
        has_edge(g, a, b) <==> (has_edge(doc, a, b) && b != deny_all())
}

/// The allow graph of the rules `doc`.
pub open spec fn allow_graph(doc: Graph) -> Graph {
    choose|g: Graph| is_allow_graph_of(g, doc)
}

/// A name is among the sources of a graph exactly if it is a source.
pub proof fn lemma_sources_of(g: Graph, a: Seq<char>)
    ensures
        sources_of(g).contains(a) <==> has_source(g, a),
{
    let keys = sources_of(g);
    if keys.contains(a) {
        let i = choose|i: int| 0 <= i < keys.len() && keys[i] == a;
        assert(g[i].0 == a);
    }
    if has_source(g, a) {
        let i = choose|i: int| 0 <= i < g.len() && #[trigger] g[i].0 == a;
        assert(keys[i] == a);
    }
}

/// Two sorted graphs with the same sources and the same edges are equal.
pub proof fn lemma_sorted_graph_unique(g: Graph, h: Graph)
    requires
        graph_sorted(g),
        graph_sorted(h),
        forall|a: Seq<char>| has_source(g, a) <==> has_source(h, a),
        forall|a: Seq<char>, b: Seq<char>| has_edge(g, a, b) <==> has_edge(h, a, b),
    ensures
        g == h,
{
    assert forall|a: Seq<char>| sources_of(g).contains(a) <==> sources_of(h).contains(a) by {
        lemma_sources_of(g, a);
        lemma_sources_of(h, a);
    }
    lemma_sorted_unique(sources_of(g), sources_of(h));
    assert(g.len() == h.len());
    assert forall|i: int| 0 <= i < g.len() implies g[i] == h[i] by {
        assert(sources_of(g)[i] == sources_of(h)[i]);
        assert(g[i].0 == h[i].0);
        assert forall|b: Seq<char>| g[i].1.contains(b) <==> h[i].1.contains(b) by {
            lemma_edge_at(g, i, b);
            lemma_edge_at(h, i, b);
        }
        lemma_sorted_unique(g[i].1, h[i].1);
    }
    assert(g =~= h);
}

/// What one more rule adds to the sources and edges of a document.
proof fn lemma_take_rule(g: Graph, i: int, a: Seq<char>, b: Seq<char>)
    requires
        0 <= i < g.len(),
    ensures
        has_source(g.take(i + 1), a) <==> (has_source(g.take(i), a) || a == g[i].0),
        has_edge(g.take(i + 1), a, b) <==> (has_edge(g.take(i), a, b) || (a == g[i].0
            && g[i].1.contains(b))),
{
    let short = g.take(i);
    let long = g.take(i + 1);
    if has_source(long, a) {
        let k = choose|k: int| 0 <= k < long.len() && #[trigger] long[k].0 == a;
        if k < i {
            assert(short[k].0 == a);
        }
    }
    if has_source(short, a) {
        let k = choose|k: int| 0 <= k < short.len() && #[trigger] short[k].0 == a;
        assert(long[k].0 == a);
    }
    if a == g[i].0 {
        assert(long[i].0 == a);
    }
    if has_edge(long, a, b) {
        let k = choose|k: int|
            0 <= k < long.len() && #[trigger] long[k].0 == a && long[k].1.contains(b);
        if k < i {
            assert(short[k].0 == a && short[k].1.contains(b));
        }
    }
    if has_edge(short, a, b) {
        let k = choose|k: int|
            0 <= k < short.len() && #[trigger] short[k].0 == a && short[k].1.contains(b);
        assert(long[k].0 == a && long[k].1.contains(b));
    }
    if a == g[i].0 && g[i].1.contains(b) {
        assert(long[i].0 == a && long[i].1.contains(b));
    }
}

/// The allow graph of a rules document: its sources, each with the set of
/// its targets, in ascending order. The mark for "nothing" is no target of
/// the graph.
pub fn get_allows(rules: &RulesDocument) -> (r: AllowsMap)
    ensures
        is_allow_graph_of(r@, rules@),
        r@ == allow_graph(rules@),
{
    let ghost g = rules@;
    let mut allows = AllowsMap::new();
    let mut i: usize = 0;
    proof {
        reveal_strlit("-");
        assert("-"@ =~= deny_all());
        assert(g.take(0) =~= Seq::<(Seq<char>, Seq<Seq<char>>)>::empty());
    }
    let _ = allows.len();
    while i < rules.allow.len()
        invariant
            i <= rules.allow.len(),
            g == rules@,
            DENY_ALL@ == deny_all(),
            is_allow_graph_of(allows@, g.take(i as int)),
        decreases rules.allow.len() - i,
    {
        let rule = &rules.allow[i];
        let ghost before = allows@;
        let ghost src = g[i as int].0;
        let ghost targets = g[i as int].1;
        let _ = allows.insert_source(rule.source.clone());
        proof {
            assert forall|a: Seq<char>| has_source(allows@, a) <==> (has_source(before, a) || a
                == src) by {
                lemma_source_inserted(before, allows@, src, a);
            }
            assert forall|a: Seq<char>, b: Seq<char>| has_edge(allows@, a, b) <==> has_edge(
                before,
                a,
                b,
            ) by {
                lemma_source_inserted_edges(before, allows@, src, a, b);
            }
            assert(targets.take(0) =~= Seq::<Seq<char>>::empty());
        }
        let mut j: usize = 0;
        while j < rule.targets.len()
            invariant
                j <= rule.targets.len(),
                DENY_ALL@ == deny_all(),
                rule.source@ == src,
                rule.targets.deep_view() == targets,
                graph_sorted(allows@),
                forall|a: Seq<char>| has_source(allows@, a) <==> (has_source(before, a) || a == src),
                forall|a: Seq<char>, b: Seq<char>|
                    has_edge(allows@, a, b) <==> (has_edge(before, a, b) || (a == src && b
                        != deny_all() && targets.take(j as int).contains(b))),
            decreases rule.targets.len() - j,
        {
            let ghost here = allows@;
            let ghost t = targets[j as int];
            proof {
                let shorter = targets.take(j as int);
                let longer = targets.take(j + 1);
                assert(longer =~= shorter.push(t));
                assert forall|b: Seq<char>| longer.contains(b) <==> (shorter.contains(b) || b
                    == t) by {
                    if longer.contains(b) {
                        let k = choose|k: int| 0 <= k < longer.len() && longer[k] == b;
                        if k < j {
                            assert(shorter[k] == b);
                        }
                    }
                    if shorter.contains(b) {
                        let k = choose|k: int| 0 <= k < shorter.len() && shorter[k] == b;
                        assert(longer[k] == b);
                    }
                    if b == t {
                        assert(longer[j as int] == b);
                    }
                }
            }
            if !text_eq(rule.targets[j].as_str(), DENY_ALL) {
                allows.insert(rule.source.clone(), rule.targets[j].clone());
            }
            j += 1;
        }
        proof {
            assert(targets.take(j as int) =~= targets);
            assert forall|a: Seq<char>| has_source(allows@, a) <==> has_source(
                g.take(i + 1),
                a,
            ) by {
                lemma_take_rule(g, i as int, a, a);
            }
            assert forall|a: Seq<char>, b: Seq<char>| has_edge(allows@, a, b) <==> (has_edge(
                g.take(i + 1),
                a,
                b,
            ) && b != deny_all()) by {
                lemma_take_rule(g, i as int, a, b);
            }
        }
        i += 1;
    }
    proof {
        assert(g.take(i as int) =~= g);
        let chosen = allow_graph(g);
        assert(is_allow_graph_of(chosen, g));
        lemma_sorted_graph_unique(allows@, chosen);
    }
    allows
}

/// Making `s` a source of a graph adds it to the sources.
proof fn lemma_source_inserted(before: Graph, after: Graph, s: Seq<char>, a: Seq<char>)
    requires
        has_source(before, s) ==> after == before,
        !has_source(before, s) ==> exists|i: int|
            0 <= i <= before.len() && after == #[trigger] before.insert(
                i,
                (s, Seq::<Seq<char>>::empty()),
            ),
    ensures
        has_source(after, a) <==> (has_source(before, a) || a == s),
{
    if !has_source(before, s) {
        let i = choose|i: int|
            0 <= i <= before.len() && after == #[trigger] before.insert(
                i,
                (s, Seq::<Seq<char>>::empty()),
            );
        if has_source(after, a) {
            let k = choose|k: int| 0 <= k < after.len() && #[trigger] after[k].0 == a;
            if k < i {
                assert(before[k].0 == a);
            } else if k > i {
                assert(before[k - 1].0 == a);
            }
        }
        if has_source(before, a) {
            let k = choose|k: int| 0 <= k < before.len() && #[trigger] before[k].0 == a;
            if k < i {
                assert(after[k].0 == a);
            } else {
                assert(after[k + 1].0 == a);
            }
        }
        if a == s {
            assert(after[i].0 == a);
        }
    }
}

/// Making `s` a source of a graph changes no edge.
proof fn lemma_source_inserted_edges(
    before: Graph,
    after: Graph,
    s: Seq<char>,
    a: Seq<char>,
    b: Seq<char>,
)
    requires
        has_source(before, s) ==> after == before,
        !has_source(before, s) ==> exists|i: int|
            0 <= i <= before.len() && after == #[trigger] before.insert(
                i,
                (s, Seq::<Seq<char>>::empty()),
            ),
    ensures
        has_edge(after, a, b) <==> has_edge(before, a, b),
{
    if !has_source(before, s) {
        let i = choose|i: int|
            0 <= i <= before.len() && after == #[trigger] before.insert(
                i,
                (s, Seq::<Seq<char>>::empty()),
            );
        if has_edge(after, a, b) {
            let k = choose|k: int|
                0 <= k < after.len() && #[trigger] after[k].0 == a && after[k].1.contains(b);
            if k < i {
                assert(before[k].0 == a && before[k].1.contains(b));
            } else if k > i {
                assert(before[k - 1].0 == a && before[k - 1].1.contains(b));
            }
        }
        if has_edge(before, a, b) {
            let k = choose|k: int|
                0 <= k < before.len() && #[trigger] before[k].0 == a && before[k].1.contains(b);
            if k < i {
                assert(after[k].0 == a && after[k].1.contains(b));
            } else {
                assert(after[k + 1].0 == a && after[k + 1].1.contains(b));
            }
        }
    }
}

/// An edge of the diagram: its source and its target.
pub type Edge = (Seq<char>, Seq<char>);

/// The edges from `source` to each of `targets`, in order, but for the
/// mark for "nothing".
pub open spec fn source_edges(source: Seq<char>, targets: Seq<Seq<char>>) -> Seq<Edge>
    decreases targets.len(),
{
    if targets.len() == 0 {
        Seq::empty()
    } else {
        let before = source_edges(source, targets.drop_last());
        if targets.last() == deny_all() {
            before
        } else {
            before.push((source, targets.last()))
        }
    }
}

/// The edges that the diagram of `g` shows, in the order in which it shows
/// them: source after source, and of each source target after target.
pub open spec fn edges_of(g: Graph) -> Seq<Edge>
    decreases g.len(),
{
    if g.len() == 0 {
        Seq::empty()
    } else {
        edges_of(g.drop_last()) + source_edges(g.last().0, g.last().1)
    }
}

/// Whether the edge `e` closes a cycle of `g`: its source can be reached
/// from its target.
pub open spec fn is_circular(g: Graph, e: Edge) -> bool {
    reaches(g, e.1, e.0)
}

/// The positions in `edges` of the edges that close a cycle of `g`, in
/// ascending order.
pub open spec fn circular_positions(g: Graph, edges: Seq<Edge>) -> Seq<nat>
    decreases edges.len(),
{
    if edges.len() == 0 {
        Seq::empty()
    } else {
        let before = circular_positions(g, edges.drop_last());
        if is_circular(g, edges.last()) {
            before.push((edges.len() - 1) as nat)
        } else {
            before
        }
    }
}

/// The line of the diagram that draws the edge `e`.
pub open spec fn edge_line(e: Edge) -> Seq<char> {
    "  "@ + e.0 + " --> "@ + e.1
}

/// The lines of the diagram that draw `edges`.
pub open spec fn edge_lines(edges: Seq<Edge>) -> Seq<Seq<char>>
    decreases edges.len(),
{
    if edges.len() == 0 {
        Seq::empty()
    } else {
        edge_lines(edges.drop_last()).push(edge_line(edges.last()))
    }
}

/// The numbers `positions`, each in decimal digits.
pub open spec fn decimals(positions: Seq<nat>) -> Seq<Seq<char>>
    decreases positions.len(),
{
    if positions.len() == 0 {
        Seq::empty()
    } else {
        decimals(positions.drop_last()).push(decimal(positions.last()))
    }
}

/// The line of the diagram that marks the edges at `positions`.
pub open spec fn link_style_line(positions: Seq<nat>) -> Seq<char> {
    "linkStyle "@ + join_with(decimals(positions), ","@) + " stroke:red;"@
}

/// The lines that open a diagram block.
pub open spec fn block_head() -> Seq<Seq<char>> {
    seq!["```mermaid"@, "%%dep"@, "graph TD"@, "  subgraph \" \""@]
}

/// The diagram block of the graph `g`: the opening fence and the lines
/// that start the diagram, one line for each edge, the line that ends the
/// subgraph, with `mark_circular` and at least one edge that closes a cycle
/// the line that marks all such edges, and the closing fence.
pub open spec fn diagram_block(g: Graph, mark_circular: bool) -> Seq<Seq<char>> {
    let edges = edges_of(g);
    let circular = circular_positions(g, edges);
    let style = if mark_circular && circular.len() > 0 {
        seq![link_style_line(circular)]
    } else {
        Seq::empty()
    };
    block_head() + edge_lines(edges) + seq!["  end"@] + style + seq!["```"@]
}

/// Whatever can be reached from is a source.
pub proof fn lemma_reaches_from_source(g: Graph, s: Seq<char>, t: Seq<char>)
    requires
        reaches(g, s, t),
    ensures
        has_source(g, s),
{
    let p = choose|p: Seq<Seq<char>>| crate::reach::is_walk(g, p) && p[0] == s && #[trigger] p.last() == t;
    assert(has_edge(g, p[0int], p[0int + 1]));
    let i = choose|i: int| 0 <= i < g.len() && #[trigger] g[i].0 == s && g[i].1.contains(p[1]);
    assert(g[i].0 == s);
}

/// Whether the edge from `source` to `target` closes a cycle of the graph
/// whose transitive closure is `transitive_allows`.
fn closes_cycle(
    Ghost(g): Ghost<Graph>,
    transitive_allows: &AllowsMap,
    source: &str,
    target: &str,
) -> (r: bool)
    requires
        transitive_allows@.len() == g.len(),
        forall|i: int| 0 <= i < g.len() ==> (#[trigger] transitive_allows@[i]).0 == g[i].0,
        forall|i: int, t: Seq<char>|
            0 <= i < g.len() ==> (#[trigger] transitive_allows@[i].1.contains(t) <==> reaches(
                g,
                g[i].0,
                t,
            )),
    ensures
        r == is_circular(g, (source@, target@)),
{
    match transitive_allows.get(target) {
        Some(deps) => {
            let r = deps.contains(source);
            proof {
                let i = choose|i: int|
                    0 <= i < transitive_allows@.len() && (#[trigger] transitive_allows@[i]).0
                        == target@ && deps@ == transitive_allows@[i].1;
                assert(transitive_allows@[i].1.contains(source@) <==> reaches(g, g[i].0, source@));
            }
            r
        },
        None => {
            proof {
                if reaches(g, target@, source@) {
                    lemma_reaches_from_source(g, target@, source@);
                    let i = choose|i: int| 0 <= i < g.len() && #[trigger] g[i].0 == target@;
                    assert(transitive_allows@[i].0 == target@);
                }
            }
            false
        },
    }
}

/// The diagram block of the allow graph `allows`, line by line. With
/// `show_circular_dependencies` the edges that close a cycle are marked.
pub fn render_diagram(allows: &AllowsMap, show_circular_dependencies: bool) -> (r: Vec<String>)
    ensures
        r.deep_view() == diagram_block(allows@, show_circular_dependencies),
{
    let ghost g = allows@;
    let transitive_allows = get_transitive_allows(allows);
    let mut circular_edge_indices: Vec<String> = Vec::new();
    let mut mermaid_edges: Vec<String> = Vec::new();
    let ghost mut drawn: Seq<Edge> = Seq::empty();
    let n: usize = allows.len();
    let mut i: usize = 0;
    proof {
        reveal_strlit("-");
        assert("-"@ =~= deny_all());
        assert(g.take(0) =~= Seq::<(Seq<char>, Seq<Seq<char>>)>::empty());
        assert(mermaid_edges.deep_view() =~= edge_lines(drawn));
        assert(circular_edge_indices.deep_view() =~= decimals(circular_positions(g, drawn)));
    }
    while i < n
        invariant
            i <= n,
            n == g.len(),
            g == allows@,
            DENY_ALL@ == deny_all(),
            transitive_allows@.len() == g.len(),
            forall|k: int| 0 <= k < g.len() ==> (#[trigger] transitive_allows@[k]).0 == g[k].0,
            forall|k: int, t: Seq<char>|
                0 <= k < g.len() ==> (#[trigger] transitive_allows@[k].1.contains(t) <==> reaches(
                    g,
                    g[k].0,
                    t,
                )),
            drawn == edges_of(g.take(i as int)),
            mermaid_edges.deep_view() == edge_lines(drawn),
            circular_edge_indices.deep_view() == decimals(circular_positions(g, drawn)),
        decreases n - i,
    {
        let source = allows.source(i);
        let targets = allows.targets(i);
        let ghost done = drawn;
        let m: usize = targets.len();
        let mut j: usize = 0;
        proof {
            assert(targets@.take(0) =~= Seq::<Seq<char>>::empty());
            assert(done + source_edges(source@, targets@.take(0)) =~= done);
        }
        while j < m
            invariant
                j <= m,
                m == targets@.len(),
                source@ == g[i as int].0,
                DENY_ALL@ == deny_all(),
                transitive_allows@.len() == g.len(),
                forall|k: int| 0 <= k < g.len() ==> (#[trigger] transitive_allows@[k]).0 == g[k].0,
                forall|k: int, t: Seq<char>|
                    0 <= k < g.len() ==> (#[trigger] transitive_allows@[k].1.contains(t)
                        <==> reaches(g, g[k].0, t)),
                drawn == done + source_edges(source@, targets@.take(j as int)),
                mermaid_edges.deep_view() == edge_lines(drawn),
                circular_edge_indices.deep_view() == decimals(circular_positions(g, drawn)),
            decreases m - j,
        {
            let target = targets.get(j);
            let ghost lines = mermaid_edges.deep_view();
            let ghost marks = circular_edge_indices.deep_view();
            proof {
                assert(targets@.take(j + 1).drop_last() =~= targets@.take(j as int));
                assert(targets@.take(j + 1).last() == targets@[j as int]);
            }
            if !text_eq(target.as_str(), DENY_ALL) {
                let ghost e = (source@, target@);
                proof {
                    let longer = drawn.push(e);
                    assert(longer.drop_last() =~= drawn);
                    assert(longer.last() == e);
                    assert(done + source_edges(source@, targets@.take(j as int)).push(e)
                        =~= longer);
                    assert(mermaid_edges.len() == drawn.len()) by {
                        lemma_edge_lines_len(drawn);
                    }
                }
                if closes_cycle(Ghost(g), &transitive_allows, source.as_str(), target.as_str()) {
                    circular_edge_indices.push(decimal_text(mermaid_edges.len()));
                    proof {
                        assert(circular_edge_indices.deep_view() =~= marks.push(
                            decimal(drawn.len()),
                        ));
                    }
                }
                let mut line = String::from_str("  ");
                append_text(&mut line, source.as_str());
                append_text(&mut line, " --> ");
                append_text(&mut line, target.as_str());
                mermaid_edges.push(line);
                proof {
                    assert(mermaid_edges.deep_view() =~= lines.push(edge_line(e)));
                    let positions = circular_positions(g, drawn);
                    let longer = drawn.push(e);
                    assert(longer.drop_last() =~= drawn);
                    if is_circular(g, e) {
                        let more = positions.push(drawn.len());
                        assert(more.drop_last() =~= positions);
                        assert(circular_positions(g, longer) == more);
                        assert(decimals(more) == marks.push(decimal(drawn.len())));
                    } else {
                        assert(circular_positions(g, longer) == positions);
                    }
                    drawn = longer;
                }
            }
            j += 1;
        }
        proof {
            assert(targets@.take(j as int) =~= targets@);
            assert(g.take(i + 1).drop_last() =~= g.take(i as int));
            assert(g.take(i + 1).last() == g[i as int]);
        }
        i += 1;
    }
    proof {
        assert(g.take(i as int) =~= g);
    }
    let mut output_lines: Vec<String> = Vec::new();
    output_lines.push(String::from_str("```mermaid"));
    output_lines.push(String::from_str("%%dep"));
    output_lines.push(String::from_str("graph TD"));
    output_lines.push(String::from_str("  subgraph \" \""));
    assert(output_lines.deep_view() =~= block_head());
    extend_lines(&mut output_lines, &mermaid_edges);
    let ghost with_edges = output_lines.deep_view();
    output_lines.push(String::from_str("  end"));
    assert(output_lines.deep_view() =~= with_edges + seq!["  end"@]);
    let ghost with_end = output_lines.deep_view();
    if show_circular_dependencies && circular_edge_indices.len() > 0 {
        let mut style = String::from_str("linkStyle ");
        let joined = join_texts(&circular_edge_indices, ",");
        append_text(&mut style, joined.as_str());
        append_text(&mut style, " stroke:red;");
        output_lines.push(style);
        proof {
            lemma_decimals_len(circular_positions(g, drawn));
            assert(output_lines.deep_view() =~= with_end + seq![
                link_style_line(circular_positions(g, drawn)),
            ]);
        }
    } else {
        proof {
            lemma_decimals_len(circular_positions(g, drawn));
            assert(with_end + Seq::<Seq<char>>::empty() =~= with_end);
        }
    }
    let ghost with_style = output_lines.deep_view();
    output_lines.push(String::from_str("```"));
    assert(output_lines.deep_view() =~= with_style + seq!["```"@]);
    output_lines
}

/// There is one line for each edge.
pub proof fn lemma_edge_lines_len(edges: Seq<Edge>)
    ensures
        edge_lines(edges).len() == edges.len(),
    decreases edges.len(),
{
    if edges.len() > 0 {
        lemma_edge_lines_len(edges.drop_last());
    }
}

/// There is one text for each number.
pub proof fn lemma_decimals_len(positions: Seq<nat>)
    ensures
        decimals(positions).len() == positions.len(),
    decreases positions.len(),
{
    if positions.len() > 0 {
        lemma_decimals_len(positions.drop_last());
    }
}

/// Appends copies of `more` to `lines`.
pub fn extend_lines(lines: &mut Vec<String>, more: &Vec<String>)
    ensures
        final(lines).deep_view() == old(lines).deep_view() + more.deep_view(),
{
    let ghost before = lines.deep_view();
    let mut k: usize = 0;
    proof {
        assert(before + more.deep_view().take(0) =~= before);
    }
    while k < more.len()
        invariant
            k <= more.len(),
            lines.deep_view() == before + more.deep_view().take(k as int),
        decreases more.len() - k,
    {
        let ghost prev = lines.deep_view();
        lines.push(more[k].clone());
        proof {
            assert(lines.deep_view() =~= prev.push(more.deep_view()[k as int]));
            assert(more.deep_view().take(k + 1) =~= more.deep_view().take(k as int).push(
                more.deep_view()[k as int],
            ));
        }
        k += 1;
    }
    proof {
        assert(more.deep_view().take(k as int) =~= more.deep_view());
    }
}

} // verus!
