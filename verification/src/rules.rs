//! The rules document of a directory.
use vstd::prelude::*;
use crate::allows::{has_edge, has_source, Graph};
use crate::text::{clone_names, contains_name, text_eq};

verus! {

/// The target that stands for "may import from nothing".
pub const DENY_ALL: &'static str = "-";

/// The text of [`DENY_ALL`].
pub open spec fn deny_all() -> Seq<char> {
    seq!['-']
}

/// One rule: the child directory `source` may import from the child
/// directories named in `targets`.
#[derive(Clone, Debug, PartialEq, Eq)]
pub struct AllowRule {
    pub source: String,
    pub targets: Vec<String>,
}

/// The rules document of one directory: which of its child directories may
/// import from which others.
#[derive(Clone, Debug, PartialEq, Eq)]
pub struct RulesDocument {
    pub allow: Vec<AllowRule>,
}

impl View for AllowRule {
    type V = (Seq<char>, Seq<Seq<char>>);

    open spec fn view(&self) -> (Seq<char>, Seq<Seq<char>>) {
        (self.source@, self.targets.deep_view())
    }
}

impl View for RulesDocument {
    type V = Graph;

    /// The rules in the order of the document, each as its source and its
    /// targets.
    open spec fn view(&self) -> Graph {
        Seq::new(self.allow@.len(), |i: int| self.allow@[i]@)
    }
}

/// The rules of an optional document, or nothing.
pub open spec fn rules_view(rules: Option<RulesDocument>) -> Option<Graph> {
    match rules {
        Some(doc) => Some(doc@),
        None => None,
    }
}

/// Every name that the rules `g` hold, in the order of the document: of
/// each rule first the source, then the targets.
pub open spec fn names_of(g: Graph) -> Seq<Seq<char>>
    decreases g.len(),
{
    if g.len() == 0 {
        Seq::empty()
    } else {
        names_of(g.drop_last()) + seq![g.last().0] + g.last().1
    }
}

/// A name is held by the rules exactly if it is a source or a target.
pub proof fn lemma_names_of(g: Graph, name: Seq<char>)
    ensures
        names_of(g).contains(name) <==> (has_source(g, name) || exists|s: Seq<char>|
            has_edge(g, s, name)),
    decreases g.len(),
{
    if g.len() > 0 {
        let rest = g.drop_last();
        let last = g.last();
        lemma_names_of(rest, name);
        let all = names_of(g);
        let before = names_of(rest);
        if all.contains(name) {
            let k = choose|k: int| 0 <= k < all.len() && all[k] == name;
            if k < before.len() {
                assert(before[k] == name);
                assert(before.contains(name));
                if has_source(rest, name) {
                    let i = choose|i: int| 0 <= i < rest.len() && #[trigger] rest[i].0 == name;
                    assert(g[i].0 == name);
                } else {
                    let s = choose|s: Seq<char>| has_edge(rest, s, name);
                    let i = choose|i: int|
                        0 <= i < rest.len() && #[trigger] rest[i].0 == s && rest[i].1.contains(name);
                    assert(g[i].0 == s && g[i].1.contains(name));
                    assert(has_edge(g, s, name));
                }
            } else if k == before.len() {
                assert(g[g.len() - 1].0 == name);
            } else {
                assert(last.1[k - before.len() - 1] == name);
                assert(g[g.len() - 1].0 == last.0 && g[g.len() - 1].1.contains(name));
                assert(has_edge(g, last.0, name));
            }
        }
        if has_source(g, name) {
            let i = choose|i: int| 0 <= i < g.len() && #[trigger] g[i].0 == name;
            if i < rest.len() {
                assert(rest[i].0 == name);
                let k = choose|k: int| 0 <= k < before.len() && before[k] == name;
                assert(all[k] == name);
            } else {
                assert(all[before.len() as int] == name);
            }
        }
        if exists|s: Seq<char>| has_edge(g, s, name) {
            let s = choose|s: Seq<char>| has_edge(g, s, name);
            let i = choose|i: int|
                0 <= i < g.len() && #[trigger] g[i].0 == s && g[i].1.contains(name);
            if i < rest.len() {
                assert(rest[i].0 == s && rest[i].1.contains(name));
                assert(has_edge(rest, s, name));
                let k = choose|k: int| 0 <= k < before.len() && before[k] == name;
                assert(all[k] == name);
            } else {
                let k = choose|k: int| 0 <= k < last.1.len() && last.1[k] == name;
                assert(all[before.len() + 1 + k] == name);
            }
        }
    }
}

impl RulesDocument {
    /// A document without rules.
    pub fn new() -> (r: RulesDocument)
        ensures
            r@ == Seq::<(Seq<char>, Seq<Seq<char>>)>::empty(),
    {
        let r = RulesDocument { allow: Vec::new() };
        assert(r@ =~= Seq::<(Seq<char>, Seq<Seq<char>>)>::empty());
        r
    }

    /// Whether the document has a rule for `name`.
    pub fn has_source(&self, name: &str) -> (r: bool)
        ensures
            r == has_source(self@, name@),
    {
        let mut i: usize = 0;
        while i < self.allow.len()
            invariant
                i <= self.allow.len(),
                forall|k: int| 0 <= k < i ==> self@[k].0 != name@,
            decreases self.allow.len() - i,
        {
            if text_eq(self.allow[i].source.as_str(), name) {
                assert(self@[i as int].0 == name@);
                return true;
            }
            i += 1;
        }
        false
    }

    /// Whether a rule of the document lets `source` import from `target`.
    pub fn allows(&self, source: &str, target: &str) -> (r: bool)
        ensures
            r == has_edge(self@, source@, target@),
    {
        let mut i: usize = 0;
        while i < self.allow.len()
            invariant
                i <= self.allow.len(),
                forall|k: int|
                    0 <= k < i ==> !((#[trigger] self@[k]).0 == source@ && self@[k].1.contains(
                        target@,
                    )),
            decreases self.allow.len() - i,
        {
            if text_eq(self.allow[i].source.as_str(), source) && contains_name(
                &self.allow[i].targets,
                target,
            ) {
                assert(self@[i as int].0 == source@ && self@[i as int].1.contains(target@));
                return true;
            }
            i += 1;
        }
        false
    }

    /// Every name that the document holds, in its order: of each rule first
    /// the source, then the targets.
    pub fn names(&self) -> (r: Vec<String>)
        ensures
            r.deep_view() == names_of(self@),
    {
        let ghost g = self@;
        let mut out: Vec<String> = Vec::new();
        let mut i: usize = 0;
        proof {
            assert(g.take(0) =~= Seq::<(Seq<char>, Seq<Seq<char>>)>::empty());
            assert(out.deep_view() =~= names_of(g.take(0)));
        }
        while i < self.allow.len()
            invariant
                i <= self.allow.len(),
                g == self@,
                out.deep_view() == names_of(g.take(i as int)),
            decreases self.allow.len() - i,
        {
            let ghost done = out.deep_view();
            out.push(self.allow[i].source.clone());
            let ghost with_source = out.deep_view();
            assert(with_source =~= done + seq![g[i as int].0]);
            let targets = &self.allow[i].targets;
            let mut k: usize = 0;
            while k < targets.len()
                invariant
                    k <= targets.len(),
                    out.deep_view() == with_source + targets.deep_view().take(k as int),
                decreases targets.len() - k,
            {
                let ghost prev = out.deep_view();
                out.push(targets[k].clone());
                proof {
                    assert(out.deep_view() =~= prev.push(targets.deep_view()[k as int]));
                    assert(targets.deep_view().take(k + 1) =~= targets.deep_view().take(
                        k as int,
                    ).push(targets.deep_view()[k as int]));
                }
                k += 1;
            }
            proof {
                assert(targets.deep_view().take(k as int) =~= targets.deep_view());
                assert(g.take(i + 1).drop_last() =~= g.take(i as int));
                assert(g.take(i + 1).last() == g[i as int]);
            }
            i += 1;
        }
        proof {
            assert(g.take(i as int) =~= g);
        }
        out
    }
}

/// Whether the name `name`, held by the rules `g`, refers to a directory:
/// every source does, and every target but the mark for "nothing".
pub open spec fn is_reference(g: Graph, name: Seq<char>) -> bool {
    name != deny_all() || has_source(g, name)
}

/// Those of `names` that refer to a directory and are not among `dirs`,
/// each once, in order of first appearance.
pub open spec fn stale_among(g: Graph, dirs: Seq<Seq<char>>, names: Seq<Seq<char>>) -> Seq<
    Seq<char>,
>
    decreases names.len(),
{
    if names.len() == 0 {
        Seq::empty()
    } else {
        let before = stale_among(g, dirs, names.drop_last());
        let name = names.last();
        if is_reference(g, name) && !dirs.contains(name) && !before.contains(name) {
            before.push(name)
        } else {
            before
        }
    }
}

/// The stale references of the rules `g`: the names that refer to a
/// directory while none of the directories `dirs` has that name.
pub open spec fn stale_names(g: Graph, dirs: Seq<Seq<char>>) -> Seq<Seq<char>> {
    stale_among(g, dirs, names_of(g))
}

/// `stale_among` holds exactly the names that refer to a directory that is
/// missing.
pub proof fn lemma_stale_among(
    g: Graph,
    dirs: Seq<Seq<char>>,
    names: Seq<Seq<char>>,
    n: Seq<char>,
)
    ensures
        stale_among(g, dirs, names).contains(n) <==> (names.contains(n) && is_reference(g, n)
            && !dirs.contains(n)),
    decreases names.len(),
{
    let all = stale_among(g, dirs, names);
    if names.len() > 0 {
        let rest = names.drop_last();
        let before = stale_among(g, dirs, rest);
        lemma_stale_among(g, dirs, rest, n);
        if all.contains(n) {
            let j = choose|j: int| 0 <= j < all.len() && all[j] == n;
            if j < before.len() {
                assert(before[j] == n);
                assert(before.contains(n));
                let k = choose|k: int| 0 <= k < rest.len() && rest[k] == n;
                assert(names[k] == n);
            } else {
                assert(names[names.len() - 1] == n);
            }
        }
        if names.contains(n) && is_reference(g, n) && !dirs.contains(n) {
            let k = choose|k: int| 0 <= k < names.len() && names[k] == n;
            if k < rest.len() {
                assert(rest[k] == n);
                assert(before.contains(n));
            }
            if before.contains(n) {
                let j = choose|j: int| 0 <= j < before.len() && before[j] == n;
                assert(all[j] == n);
            } else {
                assert(all[before.len() as int] == n);
            }
        }
    }
}

/// `stale_among` holds no name twice.
pub proof fn lemma_stale_among_distinct(g: Graph, dirs: Seq<Seq<char>>, names: Seq<Seq<char>>)
    ensures
        stale_among(g, dirs, names).no_duplicates(),
    decreases names.len(),
{
    if names.len() > 0 {
        lemma_stale_among_distinct(g, dirs, names.drop_last());
    }
}

/// A rules document that names a directory which does not exist has that
/// name among its stale references, and only such names are among them.
pub proof fn lemma_stale_names(g: Graph, dirs: Seq<Seq<char>>, n: Seq<char>)
    ensures
        stale_names(g, dirs).contains(n) <==> (names_of(g).contains(n) && is_reference(g, n)
            && !dirs.contains(n)),
        stale_names(g, dirs).no_duplicates(),
{
    lemma_stale_among(g, dirs, names_of(g), n);
    lemma_stale_among_distinct(g, dirs, names_of(g));
}

/// The names `names` without `name`.
pub open spec fn remove_name(names: Seq<Seq<char>>, name: Seq<char>) -> Seq<Seq<char>>
    decreases names.len(),
{
    if names.len() == 0 {
        Seq::empty()
    } else {
        let before = remove_name(names.drop_last(), name);
        if names.last() == name {
            before
        } else {
            before.push(names.last())
        }
    }
}

/// The rules `g` without the name `name`: the rules for `name` are gone,
/// and `name` is gone from the targets of the others.
pub open spec fn without_name(g: Graph, name: Seq<char>) -> Graph
    decreases g.len(),
{
    if g.len() == 0 {
        Seq::empty()
    } else {
        let before = without_name(g.drop_last(), name);
        if g.last().0 == name {
            before
        } else {
            before.push((g.last().0, remove_name(g.last().1, name)))
        }
    }
}

/// The position of the first rule of `g` for `source`, or the length of
/// `g` if there is none.
pub open spec fn rule_position(g: Graph, source: Seq<char>) -> int
    decreases g.len(),
{
    if g.len() == 0 {
        0
    } else if g[0].0 == source {
        0
    } else {
        1 + rule_position(g.drop_first(), source)
    }
}

/// `rule_position` gives the first position with the source, or the length.
pub proof fn lemma_rule_position(g: Graph, source: Seq<char>)
    ensures
        0 <= rule_position(g, source) <= g.len(),
        rule_position(g, source) < g.len() ==> g[rule_position(g, source)].0 == source,
        forall|k: int| 0 <= k < rule_position(g, source) ==> (#[trigger] g[k]).0 != source,
        rule_position(g, source) < g.len() <==> has_source(g, source),
    decreases g.len(),
{
    if g.len() > 0 && g[0].0 != source {
        let rest = g.drop_first();
        lemma_rule_position(rest, source);
        assert forall|k: int| 0 <= k < rule_position(g, source) implies (#[trigger] g[k]).0
            != source by {
            if k > 0 {
                assert(rest[k - 1] == g[k]);
            }
        }
        if has_source(g, source) {
            let i = choose|i: int| 0 <= i < g.len() && #[trigger] g[i].0 == source;
            assert(rest[i - 1].0 == source);
        }
        if has_source(rest, source) {
            let i = choose|i: int| 0 <= i < rest.len() && #[trigger] rest[i].0 == source;
            assert(g[i + 1].0 == source);
        }
    }
}

/// The targets `targets` widened by `target`: the mark for "nothing" goes,
/// and `target` is added at the end unless it is there.
pub open spec fn widened(targets: Seq<Seq<char>>, target: Seq<char>) -> Seq<Seq<char>> {
    let kept = remove_name(targets, deny_all());
    if kept.contains(target) {
        kept
    } else {
        kept.push(target)
    }
}

/// The rules `g` with the first rule for `source` widened by `target`. Where
/// there is no rule for `source`, nothing restricts it and the rules stay
/// as they are.
pub open spec fn with_allowed(g: Graph, source: Seq<char>, target: Seq<char>) -> Graph {
    let i = rule_position(g, source);
    if i < g.len() {
        g.update(i, (g[i].0, widened(g[i].1, target)))
    } else {
        g
    }
}

/// The names `names` without `name`.
pub fn names_without(names: &Vec<String>, name: &str) -> (r: Vec<String>)
    ensures
        r.deep_view() == remove_name(names.deep_view(), name@),
{
    let ghost all = names.deep_view();
    let mut out: Vec<String> = Vec::new();
    let mut i: usize = 0;
    proof {
        assert(all.take(0) =~= Seq::<Seq<char>>::empty());
        assert(out.deep_view() =~= Seq::<Seq<char>>::empty());
    }
    while i < names.len()
        invariant
            i <= names.len(),
            all == names.deep_view(),
            out.deep_view() == remove_name(all.take(i as int), name@),
        decreases names.len() - i,
    {
        let ghost done = out.deep_view();
        proof {
            assert(all.take(i + 1).drop_last() =~= all.take(i as int));
            assert(all.take(i + 1).last() == all[i as int]);
        }
        if !text_eq(names[i].as_str(), name) {
            out.push(names[i].clone());
            proof {
                assert(out.deep_view() =~= done.push(all[i as int]));
            }
        }
        i += 1;
    }
    proof {
        assert(all.take(i as int) =~= all);
    }
    out
}

impl RulesDocument {
    /// The stale references of the document: the names in it that refer to
    /// a directory while none of `directories` has that name.
    pub fn stale_references(&self, directories: &Vec<String>) -> (r: Vec<String>)
        ensures
            r.deep_view() == stale_names(self@, directories.deep_view()),
    {
        let ghost g = self@;
        let ghost dirs = directories.deep_view();
        let names = self.names();
        let ghost all = names.deep_view();
        let mut out: Vec<String> = Vec::new();
        let mut i: usize = 0;
        proof {
            reveal_strlit("-");
            assert("-"@ =~= deny_all());
            assert(all.take(0) =~= Seq::<Seq<char>>::empty());
            assert(out.deep_view() =~= Seq::<Seq<char>>::empty());
        }
        while i < names.len()
            invariant
                i <= names.len(),
                g == self@,
                all == names.deep_view(),
                dirs == directories.deep_view(),
                DENY_ALL@ == deny_all(),
                out.deep_view() == stale_among(g, dirs, all.take(i as int)),
            decreases names.len() - i,
        {
            let ghost done = out.deep_view();
            proof {
                assert(all.take(i + 1).drop_last() =~= all.take(i as int));
                assert(all.take(i + 1).last() == all[i as int]);
            }
            let name = names[i].as_str();
            let refers = !text_eq(name, DENY_ALL) || self.has_source(name);
            if refers && !contains_name(directories, name) && !contains_name(&out, name) {
                out.push(names[i].clone());
                proof {
                    assert(out.deep_view() =~= done.push(all[i as int]));
                }
            }
            i += 1;
        }
        proof {
            assert(all.take(i as int) =~= all);
        }
        out
    }

    /// The document without the name `name`: the rules for `name` are
    /// gone, and `name` is gone from the targets of the other rules. All
    /// else stays as it is and in its order.
    pub fn without_name(&self, name: &str) -> (r: RulesDocument)
        ensures
            r@ == without_name(self@, name@),
    {
        let ghost g = self@;
        let mut allow: Vec<AllowRule> = Vec::new();
        let mut i: usize = 0;
        proof {
            assert(g.take(0) =~= Seq::<(Seq<char>, Seq<Seq<char>>)>::empty());
        }
        while i < self.allow.len()
            invariant
                i <= self.allow.len(),
                g == self@,
                (RulesDocument { allow })@ == without_name(g.take(i as int), name@),
            decreases self.allow.len() - i,
        {
            let ghost done = (RulesDocument { allow })@;
            proof {
                assert(g.take(i + 1).drop_last() =~= g.take(i as int));
                assert(g.take(i + 1).last() == g[i as int]);
            }
            if !text_eq(self.allow[i].source.as_str(), name) {
                let targets = names_without(&self.allow[i].targets, name);
                allow.push(AllowRule { source: self.allow[i].source.clone(), targets });
                proof {
                    assert((RulesDocument { allow })@ =~= done.push(
                        (g[i as int].0, remove_name(g[i as int].1, name@)),
                    ));
                }
            }
            i += 1;
        }
        proof {
            assert(g.take(i as int) =~= g);
        }
        RulesDocument { allow }
    }

    /// The document with the first rule for `source` widened so that it
    /// allows `target`. A document without a rule for `source` stays as it
    /// is.
    pub fn with_allowed(&self, source: &str, target: &str) -> (r: RulesDocument)
        ensures
            r@ == with_allowed(self@, source@, target@),
    {
        let ghost g = self@;
        let mut allow: Vec<AllowRule> = Vec::new();
        let mut widened_one = false;
        let mut i: usize = 0;
        proof {
            reveal_strlit("-");
            assert("-"@ =~= deny_all());
            assert(g.skip(0) =~= g);
            lemma_rule_position(g, source@);
        }
        while i < self.allow.len()
            invariant
                i <= self.allow.len(),
                g == self@,
                DENY_ALL@ == deny_all(),
                allow.len() == i,
                0 <= rule_position(g, source@) <= g.len(),
                !widened_one ==> rule_position(g, source@) == i + rule_position(
                    g.skip(i as int),
                    source@,
                ),
                !widened_one ==> (RulesDocument { allow })@ == g.take(i as int),
                widened_one ==> rule_position(g, source@) < i && (RulesDocument { allow })@
                    == with_allowed(g, source@, target@).take(i as int),
            decreases self.allow.len() - i,
        {
            let ghost done = (RulesDocument { allow })@;
            let rule = &self.allow[i];
            proof {
                assert(g.skip(i as int)[0] == g[i as int]);
                assert(g.skip(i as int).drop_first() =~= g.skip(i + 1));
            }
            if !widened_one && text_eq(rule.source.as_str(), source) {
                let mut targets = names_without(&rule.targets, DENY_ALL);
                if !contains_name(&targets, target) {
                    let ghost kept = targets.deep_view();
                    targets.push(String::from_str(target));
                    proof {
                        assert(targets.deep_view() =~= kept.push(target@));
                    }
                }
                let ghost wide = targets.deep_view();
                allow.push(AllowRule { source: rule.source.clone(), targets });
                widened_one = true;
                proof {
                    let w = with_allowed(g, source@, target@);
                    assert(rule_position(g.skip(i as int), source@) == 0);
                    assert(rule_position(g, source@) == i);
                    assert(wide == widened(g[i as int].1, target@));
                    assert(w == g.update(i as int, (g[i as int].0, wide)));
                    assert((RulesDocument { allow })@ =~= done.push((g[i as int].0, wide)));
                    assert(done.push((g[i as int].0, wide)) =~= w.take(i + 1));
                }
            } else {
                allow.push(
                    AllowRule { source: rule.source.clone(), targets: clone_names(&rule.targets) },
                );
                proof {
                    assert((RulesDocument { allow })@ =~= done.push(g[i as int]));
                    if widened_one {
                        let w = with_allowed(g, source@, target@);
                        assert(w.len() == g.len());
                        assert(w[i as int] == g[i as int]);
                        assert(done.push(g[i as int]) =~= w.take(i + 1));
                    } else {
                        assert(done.push(g[i as int]) =~= g.take(i + 1));
                    }
                }
            }
            i += 1;
        }
        proof {
            if widened_one {
                let w = with_allowed(g, source@, target@);
                assert(w.len() == g.len());
                assert(w.take(i as int) =~= w);
            } else {
                assert(g.skip(i as int).len() == 0);
                assert(g.take(i as int) =~= g);
            }
        }
        RulesDocument { allow }
    }
}

/// `remove_name` takes away the name and nothing else.
pub proof fn lemma_remove_name(names: Seq<Seq<char>>, name: Seq<char>, x: Seq<char>)
    ensures
        remove_name(names, name).contains(x) <==> (names.contains(x) && x != name),
    decreases names.len(),
{
    let all = remove_name(names, name);
    if names.len() > 0 {
        let rest = names.drop_last();
        let before = remove_name(rest, name);
        lemma_remove_name(rest, name, x);
        if all.contains(x) {
            let j = choose|j: int| 0 <= j < all.len() && all[j] == x;
            if j < before.len() {
                assert(before[j] == x);
                assert(before.contains(x));
                let k = choose|k: int| 0 <= k < rest.len() && rest[k] == x;
                assert(names[k] == x);
            } else {
                assert(names[names.len() - 1] == x);
            }
        }
        if names.contains(x) && x != name {
            let k = choose|k: int| 0 <= k < names.len() && names[k] == x;
            if k < rest.len() {
                assert(rest[k] == x);
                assert(before.contains(x));
                let j = choose|j: int| 0 <= j < before.len() && before[j] == x;
                assert(all[j] == x);
            } else {
                assert(all[before.len() as int] == x);
            }
        }
    }
}

/// The repair of a stale reference removes exactly that reference: the
/// name is no source and no target of the new rules, and every source and
/// every edge between other names stands in the new rules exactly if it
/// stood in the old ones.
pub proof fn lemma_without_name(g: Graph, name: Seq<char>, a: Seq<char>, b: Seq<char>)
    ensures
        !has_source(without_name(g, name), name),
        !has_edge(without_name(g, name), a, name),
        !has_edge(without_name(g, name), name, b),
        has_source(without_name(g, name), a) <==> (has_source(g, a) && a != name),
        has_edge(without_name(g, name), a, b) <==> (has_edge(g, a, b) && a != name && b != name),
    decreases g.len(),
{
    let new = without_name(g, name);
    if g.len() > 0 {
        let rest = g.drop_last();
        let before = without_name(rest, name);
        let last = g.last();
        lemma_without_name(rest, name, a, b);
        lemma_without_name(rest, name, a, name);
        lemma_without_name(rest, name, name, b);
        lemma_remove_name(last.1, name, b);
        lemma_remove_name(last.1, name, name);
        // Sources.
        if has_source(new, a) {
            let k = choose|k: int| 0 <= k < new.len() && #[trigger] new[k].0 == a;
            if k < before.len() {
                assert(before[k].0 == a);
                assert(has_source(before, a));
                let j = choose|j: int| 0 <= j < rest.len() && #[trigger] rest[j].0 == a;
                assert(g[j].0 == a);
            } else {
                assert(g[g.len() - 1].0 == a);
            }
        }
        if has_source(g, a) && a != name {
            let j = choose|j: int| 0 <= j < g.len() && #[trigger] g[j].0 == a;
            if j < rest.len() {
                assert(rest[j].0 == a);
                assert(has_source(before, a));
                let k = choose|k: int| 0 <= k < before.len() && #[trigger] before[k].0 == a;
                assert(new[k].0 == a);
            } else {
                assert(new[before.len() as int].0 == a);
            }
        }
        if has_source(new, name) {
            let k = choose|k: int| 0 <= k < new.len() && #[trigger] new[k].0 == name;
            if k < before.len() {
                assert(before[k].0 == name);
                assert(has_source(before, name));
            }
        }
        // Edges.
        lemma_without_name_edges(g, name, a, b);
        lemma_without_name_edges(g, name, a, name);
        lemma_without_name_edges(g, name, name, b);
    }
}

/// One step of `lemma_without_name`, for the edges.
proof fn lemma_without_name_edges(g: Graph, name: Seq<char>, a: Seq<char>, b: Seq<char>)
    requires
        g.len() > 0,
        has_edge(without_name(g.drop_last(), name), a, b) <==> (has_edge(g.drop_last(), a, b)
            && a != name && b != name),
    ensures
        has_edge(without_name(g, name), a, b) <==> (has_edge(g, a, b) && a != name && b != name),
{
    let new = without_name(g, name);
    let rest = g.drop_last();
    let before = without_name(rest, name);
    let last = g.last();
    lemma_remove_name(last.1, name, b);
    if has_edge(new, a, b) {
        let k = choose|k: int|
            0 <= k < new.len() && #[trigger] new[k].0 == a && new[k].1.contains(b);
        if k < before.len() {
            assert(before[k].0 == a && before[k].1.contains(b));
            assert(has_edge(before, a, b));
            let j = choose|j: int|
                0 <= j < rest.len() && #[trigger] rest[j].0 == a && rest[j].1.contains(b);
            assert(g[j].0 == a && g[j].1.contains(b));
        } else {
            assert(g[g.len() - 1].0 == a && g[g.len() - 1].1.contains(b));
        }
    }
    if has_edge(g, a, b) && a != name && b != name {
        let j = choose|j: int| 0 <= j < g.len() && #[trigger] g[j].0 == a && g[j].1.contains(b);
        if j < rest.len() {
            assert(rest[j].0 == a && rest[j].1.contains(b));
            assert(has_edge(before, a, b));
            let k = choose|k: int|
                0 <= k < before.len() && #[trigger] before[k].0 == a && before[k].1.contains(b);
            assert(new[k].0 == a && new[k].1.contains(b));
        } else {
            assert(new[before.len() as int].0 == a && new[before.len() as int].1.contains(b));
        }
    }
}

/// Widened targets hold the old targets but for the mark for "nothing",
/// and the new target.
pub proof fn lemma_widened(targets: Seq<Seq<char>>, target: Seq<char>, x: Seq<char>)
    ensures
        widened(targets, target).contains(x) <==> ((targets.contains(x) && x != deny_all()) || x
            == target),
{
    let kept = remove_name(targets, deny_all());
    lemma_remove_name(targets, deny_all(), x);
    lemma_remove_name(targets, deny_all(), target);
    let wide = widened(targets, target);
    if !kept.contains(target) {
        if wide.contains(x) {
            let k = choose|k: int| 0 <= k < wide.len() && wide[k] == x;
            if k < kept.len() {
                assert(kept[k] == x);
            }
        }
        if kept.contains(x) {
            let k = choose|k: int| 0 <= k < kept.len() && kept[k] == x;
            assert(wide[k] == x);
        }
        assert(wide[kept.len() as int] == target);
    }
}

/// The repair of a disallowed import widens one rule and changes nothing
/// else: the sources stay, every edge of the old rules stays unless it
/// leads to the mark for "nothing", the only new edge is the one from
/// `source` to `target`, and that edge is there if `source` has a rule.
pub proof fn lemma_with_allowed(
    g: Graph,
    source: Seq<char>,
    target: Seq<char>,
    a: Seq<char>,
    b: Seq<char>,
)
    ensures
        has_source(with_allowed(g, source, target), a) <==> has_source(g, a),
        has_edge(with_allowed(g, source, target), a, b) ==> has_edge(g, a, b) || (a == source && b
            == target),
        has_edge(g, a, b) && b != deny_all() ==> has_edge(with_allowed(g, source, target), a, b),
        has_source(g, source) ==> has_edge(with_allowed(g, source, target), source, target),
{
    let new = with_allowed(g, source, target);
    let i = rule_position(g, source);
    lemma_rule_position(g, source);
    if i < g.len() {
        lemma_widened(g[i].1, target, b);
        lemma_widened(g[i].1, target, target);
        assert(new[i].0 == source && new[i].1.contains(target));
        if has_source(new, a) {
            let k = choose|k: int| 0 <= k < new.len() && #[trigger] new[k].0 == a;
            assert(g[k].0 == a);
        }
        if has_source(g, a) {
            let k = choose|k: int| 0 <= k < g.len() && #[trigger] g[k].0 == a;
            assert(new[k].0 == a);
        }
        if has_edge(new, a, b) {
            let k = choose|k: int|
                0 <= k < new.len() && #[trigger] new[k].0 == a && new[k].1.contains(b);
            if k != i {
                assert(g[k].0 == a && g[k].1.contains(b));
            } else if b != target {
                assert(g[k].0 == a && g[k].1.contains(b));
            }
        }
        if has_edge(g, a, b) && b != deny_all() {
            let k = choose|k: int| 0 <= k < g.len() && #[trigger] g[k].0 == a && g[k].1.contains(b);
            assert(new[k].0 == a && new[k].1.contains(b));
        }
    }
}

} // verus!
