//! The policy resolver: from the prefixes that a directory may not import
//! and its rules document, the prefixes that one of its children may not
//! import.
use vstd::prelude::*;
use crate::allows::{has_edge, has_source, Graph};
use crate::paths::{is_plain_name, join_components, join_path, name_is_plain};
use crate::rules::{deny_all, names_of, rules_view, DENY_ALL, RulesDocument};
use crate::text::{clone_names, contains_name, text_eq};

verus! {

/// Whether the rules `g` keep `child` from importing from its sibling
/// `name`: `name` can name a directory, it is another directory than
/// `child`, it is not the mark for "nothing", and no rule lets `child`
/// import from it.
pub open spec fn is_denied_sibling(g: Graph, child: Seq<char>, name: Seq<char>) -> bool {
    is_plain_name(name) && name != child && name != deny_all() && !has_edge(g, child, name)
}

/// The path, relative to the root, of the entry `name` of the directory
/// whose components are `dir`.
pub open spec fn child_path(dir: Seq<Seq<char>>, name: Seq<char>) -> Seq<char> {
    join_path(dir.push(name))
}

/// The list `acc`, and after it the paths of those of `names` that `child`
/// is kept from, each once.
pub open spec fn add_denied(
    acc: Seq<Seq<char>>,
    g: Graph,
    dir: Seq<Seq<char>>,
    child: Seq<char>,
    names: Seq<Seq<char>>,
) -> Seq<Seq<char>>
    decreases names.len(),
{
    if names.len() == 0 {
        acc
    } else {
        let before = add_denied(acc, g, dir, child, names.drop_last());
        let path = child_path(dir, names.last());
        if is_denied_sibling(g, child, names.last()) && !before.contains(path) {
            before.push(path)
        } else {
            before
        }
    }
}

/// The prefixes that the child `child` of the directory `dir` may not
/// import, where `parent` lists those that `dir` itself may not import and
/// `rules` is the rules document of `dir`.
///
/// A child without a rule inherits `parent` as it is. For a child with a
/// rule, every other name of the document that can name a directory and
/// that the rule does not allow is added as the path of that sibling.
pub open spec fn child_disallowed(
    dir: Seq<Seq<char>>,
    parent: Seq<Seq<char>>,
    rules: Option<Graph>,
    child: Seq<char>,
) -> Seq<Seq<char>> {
    match rules {
        Some(g) => if has_source(g, child) {
            add_denied(parent, g, dir, child, names_of(g))
        } else {
            parent
        },
        None => parent,
    }
}

/// What `add_denied` holds: the list it began with, in place, and the paths
/// of the denied siblings among the names.
pub proof fn lemma_add_denied(
    acc: Seq<Seq<char>>,
    g: Graph,
    dir: Seq<Seq<char>>,
    child: Seq<char>,
    names: Seq<Seq<char>>,
)
    ensures
        acc.is_prefix_of(add_denied(acc, g, dir, child, names)),
        forall|p: Seq<char>|
            add_denied(acc, g, dir, child, names).contains(p) <==> (acc.contains(p) || exists|
                k: int,
            |
                0 <= k < names.len() && is_denied_sibling(g, child, #[trigger] names[k]) && p
                    == child_path(dir, names[k])),
    decreases names.len(),
{
    let all = add_denied(acc, g, dir, child, names);
    if names.len() > 0 {
        let rest = names.drop_last();
        let before = add_denied(acc, g, dir, child, rest);
        lemma_add_denied(acc, g, dir, child, rest);
        let path = child_path(dir, names.last());
        assert forall|p: Seq<char>| all.contains(p) <==> (acc.contains(p) || exists|k: int|
            0 <= k < names.len() && is_denied_sibling(g, child, #[trigger] names[k]) && p
                == child_path(dir, names[k])) by {
            if all.contains(p) {
                let j = choose|j: int| 0 <= j < all.len() && all[j] == p;
                if j < before.len() {
                    assert(before[j] == p);
                    assert(before.contains(p));
                    if !acc.contains(p) {
                        let k = choose|k: int|
                            0 <= k < rest.len() && is_denied_sibling(g, child, #[trigger] rest[k])
                                && p == child_path(dir, rest[k]);
                        assert(names[k] == rest[k]);
                    }
                } else {
                    assert(p == path);
                    assert(names[names.len() - 1] == names.last());
                }
            }
            if acc.contains(p) {
                assert(before.contains(p));
                let j = choose|j: int| 0 <= j < before.len() && before[j] == p;
                assert(all[j] == p);
            }
            if exists|k: int|
                0 <= k < names.len() && is_denied_sibling(g, child, #[trigger] names[k]) && p
                    == child_path(dir, names[k]) {
                let k = choose|k: int|
                    0 <= k < names.len() && is_denied_sibling(g, child, #[trigger] names[k]) && p
                        == child_path(dir, names[k]);
                if k < rest.len() {
                    assert(rest[k] == names[k]);
                    assert(before.contains(p));
                    let j = choose|j: int| 0 <= j < before.len() && before[j] == p;
                    assert(all[j] == p);
                } else {
                    if before.contains(p) {
                        let j = choose|j: int| 0 <= j < before.len() && before[j] == p;
                        assert(all[j] == p);
                    } else {
                        assert(all[before.len() as int] == p);
                    }
                }
            }
        }
    }
}

/// A child may import nothing that its parent may not: the prefixes of the
/// parent stand, in their order, at the start of the child's list.
pub proof fn lemma_child_keeps_parent_restrictions(
    dir: Seq<Seq<char>>,
    parent: Seq<Seq<char>>,
    rules: Option<Graph>,
    child: Seq<char>,
)
    ensures
        parent.is_prefix_of(child_disallowed(dir, parent, rules, child)),
        forall|p: Seq<char>|
            parent.contains(p) ==> child_disallowed(dir, parent, rules, child).contains(p),
{
    let all = child_disallowed(dir, parent, rules, child);
    if let Some(g) = rules {
        lemma_add_denied(parent, g, dir, child, names_of(g));
    }
    assert forall|p: Seq<char>| parent.contains(p) implies all.contains(p) by {
        let j = choose|j: int| 0 <= j < parent.len() && parent[j] == p;
        assert(all[j] == p);
    }
}

/// Which prefixes a child may not import: those of its parent, and, if the
/// document has a rule for the child, the path of every other name of the
/// document that no rule allows to the child.
pub proof fn lemma_child_disallowed_members(
    dir: Seq<Seq<char>>,
    parent: Seq<Seq<char>>,
    rules: Option<Graph>,
    child: Seq<char>,
    p: Seq<char>,
)
    ensures
        child_disallowed(dir, parent, rules, child).contains(p) <==> (parent.contains(p) || (
        rules matches Some(g) && has_source(g, child) && exists|name: Seq<char>|
            names_of(g).contains(name) && is_denied_sibling(g, child, name) && p == child_path(
                dir,
                name,
            ))),
{
    if let Some(g) = rules {
        if has_source(g, child) {
            let names = names_of(g);
            lemma_add_denied(parent, g, dir, child, names);
            if exists|name: Seq<char>|
                names.contains(name) && is_denied_sibling(g, child, name) && p == child_path(
                    dir,
                    name,
                ) {
                let name = choose|name: Seq<char>|
                    names.contains(name) && is_denied_sibling(g, child, name) && p == child_path(
                        dir,
                        name,
                    );
                let k = choose|k: int| 0 <= k < names.len() && names[k] == name;
                assert(is_denied_sibling(g, child, names[k]));
            }
            if child_disallowed(dir, parent, rules, child).contains(p) && !parent.contains(p) {
                let k = choose|k: int|
                    0 <= k < names.len() && is_denied_sibling(g, child, #[trigger] names[k]) && p
                        == child_path(dir, names[k]);
                assert(names.contains(names[k]));
            }
        }
    }
}

/// The path, relative to the root, of the entry `name` of the directory
/// whose components are `dir`.
pub fn path_of_child(dir: &Vec<String>, name: &str) -> (r: String)
    ensures
        r@ == child_path(dir.deep_view(), name@),
{
    let mut comps = clone_names(dir);
    let ghost before = comps.deep_view();
    comps.push(String::from_str(name));
    assert(comps.deep_view() =~= before.push(name@));
    join_components(&comps)
}

/// The prefixes that the child `child` of the directory `current` may not
/// import: those in `disallowed_imports`, which `current` itself may not
/// import, and what the rules of `current` add for `child`.
pub fn get_child_disallowed_imports(
    current: &Vec<String>,
    disallowed_imports: &Vec<String>,
    current_rules: &Option<RulesDocument>,
    child: &str,
) -> (r: Vec<String>)
    ensures
        r.deep_view() == child_disallowed(
            current.deep_view(),
            disallowed_imports.deep_view(),
            rules_view(*current_rules),
            child@,
        ),
        disallowed_imports.deep_view().is_prefix_of(r.deep_view()),
{
    proof {
        lemma_child_keeps_parent_restrictions(
            current.deep_view(),
            disallowed_imports.deep_view(),
            rules_view(*current_rules),
            child@,
        );
    }
    let mut out = clone_names(disallowed_imports);
    match current_rules {
        None => out,
        Some(rules) => {
            if !rules.has_source(child) {
                return out;
            }
            let ghost g = rules@;
            let ghost dir = current.deep_view();
            let ghost parent = disallowed_imports.deep_view();
            let names = rules.names();
            let mut k: usize = 0;
            proof {
                reveal_strlit("-");
                assert("-"@ =~= deny_all());
                assert(names.deep_view().take(0) =~= Seq::<Seq<char>>::empty());
            }
            while k < names.len()
                invariant
                    k <= names.len(),
                    g == rules@,
                    dir == current.deep_view(),
                    DENY_ALL@ == deny_all(),
                    out.deep_view() == add_denied(
                        parent,
                        g,
                        dir,
                        child@,
                        names.deep_view().take(k as int),
                    ),
                decreases names.len() - k,
            {
                let ghost done = out.deep_view();
                proof {
                    assert(names.deep_view().take(k + 1).drop_last() =~= names.deep_view().take(
                        k as int,
                    ));
                    assert(names.deep_view().take(k + 1).last() == names.deep_view()[k as int]);
                }
                let name = names[k].as_str();
                if name_is_plain(name) && !text_eq(name, child) && !text_eq(name, DENY_ALL)
                    && !rules.allows(child, name) {
                    let path = path_of_child(current, name);
                    if !contains_name(&out, path.as_str()) {
                        out.push(path);
                        proof {
                            assert(out.deep_view() =~= done.push(child_path(dir, name@)));
                        }
                    }
                }
                k += 1;
            }
            proof {
                assert(names.deep_view().take(k as int) =~= names.deep_view());
            }
            out
        },
    }
}

} // verus!
