//! The allow map of a directory: for each source name, the set of names it
//! may import from, both kept in lexicographic order.
use vstd::prelude::*;
use crate::names::{strictly_sorted, NameSet};
use crate::order::{
    lemma_lex_irreflexive, lemma_lex_total, lemma_lex_transitive, lex_less, order_text,
    TextOrder,
};

verus! {

/// A directed graph over names: a sequence of sources, each with its
/// direct targets.
pub type Graph = Seq<(Seq<char>, Seq<Seq<char>>)>;

/// The sources of `g`, in order.
pub open spec fn sources_of(g: Graph) -> Seq<Seq<char>> {
    Seq::new(g.len(), |i: int| g[i].0)
}

/// Whether `s` is a source of `g`.
pub open spec fn has_source(g: Graph, s: Seq<char>) -> bool {
    exists|i: int| 0 <= i < g.len() && #[trigger] g[i].0 == s
}

/// Whether `g` has the edge from `s` to `t`.
pub open spec fn has_edge(g: Graph, s: Seq<char>, t: Seq<char>) -> bool {
    exists|i: int| 0 <= i < g.len() && #[trigger] g[i].0 == s && g[i].1.contains(t)
}

/// Whether the sources of `g`, and the targets of each source, are in
/// strictly ascending order.
pub open spec fn graph_sorted(g: Graph) -> bool {
    &&& strictly_sorted(sources_of(g))
    &&& forall|i: int| 0 <= i < g.len() ==> strictly_sorted(#[trigger] g[i].1)
}

/// One source with the names it may import from.
#[derive(Debug, PartialEq, Eq)]
pub struct AllowEntry {
    source: String,
    targets: NameSet,
}

/// A map from source names to sets of target names, in ascending order of
/// the sources.
#[derive(Debug, PartialEq, Eq)]
pub struct AllowsMap {
    entries: Vec<AllowEntry>,
}

pub closed spec fn entries_view(entries: Seq<AllowEntry>) -> Graph {
    Seq::new(entries.len(), |i: int| (entries[i].source@, entries[i].targets@))
}

impl View for AllowsMap {
    type V = Graph;

    /// The sources with their targets, in ascending order of the sources.
    closed spec fn view(&self) -> Graph {
        entries_view(self.entries@)
    }
}

impl AllowsMap {
    #[verifier::type_invariant]
    spec fn ordered(self) -> bool {
        graph_sorted(entries_view(self.entries@))
    }

    /// The empty map.
    pub fn new() -> (r: AllowsMap)
        ensures
            r@ == Seq::<(Seq<char>, Seq<Seq<char>>)>::empty(),
    {
        let entries: Vec<AllowEntry> = Vec::new();
        assert(entries_view(entries@) =~= Seq::<(Seq<char>, Seq<Seq<char>>)>::empty());
        AllowsMap { entries }
    }

    /// How many sources the map holds.
    pub fn len(&self) -> (r: usize)
        ensures
            r == self@.len(),
            graph_sorted(self@),
    {
        proof {
            use_type_invariant(self);
        }
        self.entries.len()
    }

    /// Whether the map holds no source.
    pub fn is_empty(&self) -> (r: bool)
        ensures
            r == (self@.len() == 0),
    {
        self.entries.len() == 0
    }

    /// The source at position `i`.
    pub fn source(&self, i: usize) -> (r: &String)
        requires
            i < self@.len(),
        ensures
            r@ == self@[i as int].0,
    {
        &self.entries[i].source
    }

    /// The targets of the source at position `i`.
    pub fn targets(&self, i: usize) -> (r: &NameSet)
        requires
            i < self@.len(),
        ensures
            r@ == self@[i as int].1,
    {
        &self.entries[i].targets
    }

    /// The position of `source` among the sources, if it is one.
    pub fn find(&self, source: &str) -> (r: Option<usize>)
        ensures
            match r {
                Some(i) => i < self@.len() && self@[i as int].0 == source@,
                None => !has_source(self@, source@),
            },
    {
        let mut i: usize = 0;
        while i < self.entries.len()
            invariant
                i <= self.entries.len(),
                forall|k: int| 0 <= k < i ==> self@[k].0 != source@,
            decreases self.entries.len() - i,
        {
            if crate::text::text_eq(self.entries[i].source.as_str(), source) {
                return Some(i);
            }
            i += 1;
        }
        None
    }

    /// The targets of `source`, if it is a source.
    pub fn get(&self, source: &str) -> (r: Option<&NameSet>)
        ensures
            match r {
                Some(set) => exists|i: int|
                    0 <= i < self@.len() && (#[trigger] self@[i]).0 == source@ && set@
                        == self@[i].1,
                None => !has_source(self@, source@),
            },
    {
        match self.find(source) {
            Some(i) => Some(&self.entries[i].targets),
            None => None,
        }
    }

    /// Makes `source` a source of the map, with no targets if it is new, and
    /// gives its position.
    pub fn insert_source(&mut self, source: String) -> (r: usize)
        ensures
            graph_sorted(final(self)@),
            r < final(self)@.len(),
            r <= old(self)@.len(),
            final(self)@[r as int].0 == source@,
            has_source(old(self)@, source@) ==> final(self)@ == old(self)@,
            !has_source(old(self)@, source@) ==> final(self)@ == old(self)@.insert(
                r as int,
                (source@, Seq::<Seq<char>>::empty()),
            ),
    {
        proof {
            use_type_invariant(&*self);
        }
        let ghost before = self@;
        let ghost keys = sources_of(before);
        let mut i: usize = 0;
        let mut placed = false;
        while !placed && i < self.entries.len()
            invariant
                i <= self.entries.len(),
                self@ == before,
                before.len() == self.entries.len(),
                keys == sources_of(before),
                strictly_sorted(keys),
                graph_sorted(before),
                forall|k: int| 0 <= k < i ==> lex_less(keys[k], source@),
                placed ==> i < before.len() && lex_less(source@, keys[i as int]),
            decreases self.entries.len() - i + if placed { 0int } else { 1int },
        {
            match order_text(self.entries[i].source.as_str(), source.as_str()) {
                TextOrder::Before => {
                    assert(keys[i as int] == before[i as int].0);
                    i += 1;
                },
                TextOrder::Same => {
                    assert(before[i as int].0 == source@);
                    return i;
                },
                TextOrder::After => {
                    proof {
                        assert(keys[i as int] == before[i as int].0);
                        lemma_lex_total(keys[i as int], source@);
                    }
                    placed = true;
                },
            }
        }
        proof {
            assert forall|k: int| i <= k < keys.len() implies lex_less(source@, keys[k]) by {
                if k > i {
                    lemma_lex_transitive(source@, keys[i as int], keys[k]);
                }
            }
            assert forall|k: int| 0 <= k < before.len() implies (#[trigger] before[k]).0
                != source@ by {
                lemma_lex_irreflexive(source@);
                assert(keys[k] == before[k].0);
            }
        }
        let ghost added = source@;
        let mut entries: Vec<AllowEntry> = Vec::new();
        assert(entries_view(entries@) =~= Seq::<(Seq<char>, Seq<Seq<char>>)>::empty());
        std::mem::swap(&mut self.entries, &mut entries);
        let targets = NameSet::new();
        entries.insert(i, AllowEntry { source, targets });
        proof {
            let after = entries_view(entries@);
            assert(after =~= before.insert(i as int, (added, Seq::<Seq<char>>::empty())));
            let after_keys = sources_of(after);
            assert(after_keys =~= keys.insert(i as int, added));
            assert forall|a: int, b: int| 0 <= a < b < after_keys.len() implies lex_less(
                #[trigger] after_keys[a],
                #[trigger] after_keys[b],
            ) by {
                if a < i && b == i {
                } else if a < i && b > i {
                    assert(after_keys[b] == keys[b - 1]);
                } else if a == i {
                    assert(after_keys[b] == keys[b - 1]);
                } else if a < i && b < i {
                } else {
                    assert(after_keys[a] == keys[a - 1]);
                    assert(after_keys[b] == keys[b - 1]);
                }
            }
            assert forall|k: int| 0 <= k < after.len() implies strictly_sorted(
                #[trigger] after[k].1,
            ) by {
                if k < i {
                    assert(after[k] == before[k]);
                } else if k > i {
                    assert(after[k] == before[k - 1]);
                }
            }
        }
        std::mem::swap(&mut self.entries, &mut entries);
        i
    }

    /// Gives the source at position `i` the targets `targets` in place of
    /// those it had.
    pub fn set_targets(&mut self, i: usize, targets: NameSet)
        requires
            i < old(self)@.len(),
        ensures
            final(self)@ == old(self)@.update(i as int, (old(self)@[i as int].0, targets@)),
            graph_sorted(final(self)@),
    {
        proof {
            use_type_invariant(&*self);
        }
        let ghost before = self@;
        let _ = targets.len();
        let mut entries: Vec<AllowEntry> = Vec::new();
        assert(entries_view(entries@) =~= Seq::<(Seq<char>, Seq<Seq<char>>)>::empty());
        std::mem::swap(&mut self.entries, &mut entries);
        let entry = entries.remove(i);
        let ghost new_targets = targets@;
        entries.insert(i, AllowEntry { source: entry.source, targets });
        proof {
            let after = entries_view(entries@);
            assert(after =~= before.update(i as int, (before[i as int].0, new_targets)));
            assert(sources_of(after) =~= sources_of(before));
            assert forall|k: int| 0 <= k < after.len() implies strictly_sorted(
                #[trigger] after[k].1,
            ) by {
                if k != i {
                    assert(after[k] == before[k]);
                }
            }
        }
        std::mem::swap(&mut self.entries, &mut entries);
    }

    /// Adds the edge from `source` to `target`, making `source` a source if
    /// it was none.
    pub fn insert(&mut self, source: String, target: String)
        ensures
            graph_sorted(final(self)@),
            forall|a: Seq<char>|
                has_source(final(self)@, a) <==> (has_source(old(self)@, a) || a == source@),
            forall|a: Seq<char>, b: Seq<char>|
                has_edge(final(self)@, a, b) <==> (has_edge(old(self)@, a, b) || (a == source@
                    && b == target@)),
    {
        let ghost before = self@;
        let ghost s = source@;
        let ghost t = target@;
        let i: usize = self.insert_source(source);
        let ghost mid = self@;
        let mut entries: Vec<AllowEntry> = Vec::new();
        assert(entries_view(entries@) =~= Seq::<(Seq<char>, Seq<Seq<char>>)>::empty());
        std::mem::swap(&mut self.entries, &mut entries);
        let mut entry = entries.remove(i);
        let ghost old_targets = entry.targets@;
        entry.targets.insert(target);
        let ghost new_targets = entry.targets@;
        entries.insert(i, entry);
        proof {
            let after = entries_view(entries@);
            assert(after =~= mid.update(i as int, (s, new_targets)));
            assert(sources_of(after) =~= sources_of(mid));
            assert forall|k: int| 0 <= k < after.len() implies strictly_sorted(
                #[trigger] after[k].1,
            ) by {
                if k != i {
                    assert(after[k] == mid[k]);
                }
            }
            lemma_sources_after_insert(before, mid, s, i as int);
            assert forall|a: Seq<char>| has_source(after, a) <==> has_source(mid, a) by {
                if has_source(after, a) {
                    let k = choose|k: int| 0 <= k < after.len() && #[trigger] after[k].0 == a;
                    assert(mid[k].0 == a);
                }
                if has_source(mid, a) {
                    let k = choose|k: int| 0 <= k < mid.len() && #[trigger] mid[k].0 == a;
                    assert(after[k].0 == a);
                }
            }
            assert forall|a: Seq<char>, b: Seq<char>| has_edge(after, a, b) <==> (has_edge(
                before,
                a,
                b,
            ) || (a == s && b == t)) by {
                lemma_edges_after_insert(before, mid, s, i as int, a, b);
                if has_edge(after, a, b) {
                    let k = choose|k: int|
                        0 <= k < after.len() && #[trigger] after[k].0 == a && after[k].1.contains(
                            b,
                        );
                    if k != i {
                        assert(mid[k].0 == a && mid[k].1.contains(b));
                    } else if b != t {
                        assert(mid[k].0 == a && mid[k].1.contains(b));
                    }
                }
                if has_edge(mid, a, b) {
                    let k = choose|k: int|
                        0 <= k < mid.len() && #[trigger] mid[k].0 == a && mid[k].1.contains(b);
                    assert(after[k].0 == a && after[k].1.contains(b));
                }
                if a == s && b == t {
                    assert(after[i as int].0 == a && after[i as int].1.contains(b));
                }
            }
        }
        std::mem::swap(&mut self.entries, &mut entries);
    }
}

/// What making `s` a source changes in the sources of a graph.
proof fn lemma_sources_after_insert(before: Graph, mid: Graph, s: Seq<char>, i: int)
    requires
        0 <= i < mid.len(),
        i <= before.len(),
        mid[i].0 == s,
        has_source(before, s) ==> mid == before,
        !has_source(before, s) ==> mid == before.insert(i, (s, Seq::<Seq<char>>::empty())),
    ensures
        forall|a: Seq<char>| has_source(mid, a) <==> (has_source(before, a) || a == s),
{
    assert forall|a: Seq<char>| has_source(mid, a) <==> (has_source(before, a) || a == s) by {
        if !has_source(before, s) {
            if has_source(mid, a) {
                let k = choose|k: int| 0 <= k < mid.len() && #[trigger] mid[k].0 == a;
                if k < i {
                    assert(before[k].0 == a);
                } else if k > i {
                    assert(before[k - 1].0 == a);
                }
            }
            if has_source(before, a) {
                let k = choose|k: int| 0 <= k < before.len() && #[trigger] before[k].0 == a;
                if k < i {
                    assert(mid[k].0 == a);
                } else {
                    assert(mid[k + 1].0 == a);
                }
            }
        }
    }
}

/// Making `s` a source changes no edge.
proof fn lemma_edges_after_insert(
    before: Graph,
    mid: Graph,
    s: Seq<char>,
    i: int,
    a: Seq<char>,
    b: Seq<char>,
)
    requires
        0 <= i < mid.len(),
        i <= before.len(),
        mid[i].0 == s,
        has_source(before, s) ==> mid == before,
        !has_source(before, s) ==> mid == before.insert(i, (s, Seq::<Seq<char>>::empty())),
    ensures
        has_edge(mid, a, b) <==> has_edge(before, a, b),
{
    if !has_source(before, s) {
        if has_edge(mid, a, b) {
            let k = choose|k: int|
                0 <= k < mid.len() && #[trigger] mid[k].0 == a && mid[k].1.contains(b);
            if k < i {
                assert(before[k].0 == a && before[k].1.contains(b));
            } else if k > i {
                assert(before[k - 1].0 == a && before[k - 1].1.contains(b));
            }
        }
        if has_edge(before, a, b) {
            let k = choose|k: int|
                0 <= k < before.len() && #[trigger] before[k].0 == a && before[k].1.contains(b);
            if k < i {
                assert(mid[k].0 == a && mid[k].1.contains(b));
            } else {
                assert(mid[k + 1].0 == a && mid[k + 1].1.contains(b));
            }
        }
    }
}

} // verus!
