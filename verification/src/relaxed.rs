//! Trees whose rules restrict less: a scan of such a tree finds nothing
//! that a scan of the stricter tree does not find.
use vstd::prelude::*;
use crate::allows::{has_edge, has_source, Graph};
use crate::disallowed::{
    child_disallowed, child_path, is_denied_sibling, lemma_child_disallowed_members,
};
use crate::found::{
    child_scan, lemma_file_hits, lemma_files_hits, lemma_import_hits, lemma_scan_children,
    lemma_scan_dir, one_file_hits,
};
use crate::normalize::{canonical_import, import_steps, walk};
use crate::paths::path_begins_with;
use crate::rules::{
    is_reference, lemma_names_of, lemma_stale_names, lemma_with_allowed, lemma_without_name,
    names_of, stale_names, with_allowed, without_name,
};
use crate::tree::{
    child_named, child_position, dir_at, lemma_child_position, with_rules_at, DirView, FileView,
};
use crate::violations::ViolationView;
use crate::visit::{
    child_names, disallowed_at, file_position, files_hits, import_hit, import_hits, rules_at,
    scan_children, scan_dir, scan_target, stale_hits,
};

verus! {

/// Whether the rules `new` restrict no more than the rules `old`: whatever
/// `new` keeps a child from, `old` keeps it from too, and whatever name
/// `new` refers to, `old` refers to as well. No rules restrict nothing.
pub open spec fn rules_relaxed(new: Option<Graph>, old: Option<Graph>) -> bool {
    match new {
        None => true,
        Some(n) => {
            &&& old is Some
            &&& forall|child: Seq<char>, name: Seq<char>|
                #![trigger is_denied_sibling(n, child, name)]
                has_source(n, child) && names_of(n).contains(name) && is_denied_sibling(
                    n,
                    child,
                    name,
                ) ==> has_source(old->0, child) && names_of(old->0).contains(name)
                    && is_denied_sibling(old->0, child, name)
            &&& forall|name: Seq<char>|
                #![trigger is_reference(n, name)]
                names_of(n).contains(name) && is_reference(n, name) ==> names_of(old->0).contains(
                    name,
                ) && is_reference(old->0, name)
        },
    }
}

/// Whether every element of `a` is an element of `b`.
pub open spec fn within<A>(a: Seq<A>, b: Seq<A>) -> bool {
    forall|x: A| a.contains(x) ==> b.contains(x)
}

/// Rules restrict no more than themselves.
pub proof fn lemma_rules_relaxed_reflexive(rules: Option<Graph>)
    ensures
        rules_relaxed(rules, rules),
{
}

/// Widening a rule by a name that the rules know relaxes the rules.
pub proof fn lemma_with_allowed_relaxes(g: Graph, source: Seq<char>, target: Seq<char>)
    requires
        names_of(g).contains(target),
    ensures
        rules_relaxed(Some(with_allowed(g, source, target)), Some(g)),
{
    let n = with_allowed(g, source, target);
    assert forall|name: Seq<char>| names_of(n).contains(name) implies names_of(g).contains(
        name,
    ) by {
        lemma_names_of(n, name);
        lemma_names_of(g, name);
        lemma_names_of(g, target);
        lemma_with_allowed(g, source, target, name, name);
        if !has_source(n, name) {
            let s = choose|s: Seq<char>| has_edge(n, s, name);
            lemma_with_allowed(g, source, target, s, name);
        }
    }
    assert forall|child: Seq<char>, name: Seq<char>|
        #![trigger is_denied_sibling(n, child, name)]
        has_source(n, child) && names_of(n).contains(name) && is_denied_sibling(
            n,
            child,
            name,
        ) implies has_source(g, child) && names_of(g).contains(name) && is_denied_sibling(
        g,
        child,
        name,
    ) by {
        lemma_with_allowed(g, source, target, child, name);
    }
    assert forall|name: Seq<char>|
        #![trigger is_reference(n, name)]
        names_of(n).contains(name) && is_reference(n, name) implies names_of(g).contains(name)
        && is_reference(g, name) by {
        lemma_with_allowed(g, source, target, name, name);
    }
}

/// Removing a name relaxes the rules.
pub proof fn lemma_without_name_relaxes(g: Graph, gone: Seq<char>)
    ensures
        rules_relaxed(Some(without_name(g, gone)), Some(g)),
        forall|name: Seq<char>|
            names_of(without_name(g, gone)).contains(name) ==> names_of(g).contains(name) && name
                != gone,
{
    let n = without_name(g, gone);
    assert forall|name: Seq<char>| names_of(n).contains(name) implies names_of(g).contains(name)
        && name != gone by {
        lemma_names_of(n, name);
        lemma_names_of(g, name);
        lemma_without_name(g, gone, name, name);
        if !has_source(n, name) {
            let s = choose|s: Seq<char>| has_edge(n, s, name);
            lemma_without_name(g, gone, s, name);
        }
    }
    assert forall|child: Seq<char>, name: Seq<char>|
        #![trigger is_denied_sibling(n, child, name)]
        has_source(n, child) && names_of(n).contains(name) && is_denied_sibling(
            n,
            child,
            name,
        ) implies has_source(g, child) && names_of(g).contains(name) && is_denied_sibling(
        g,
        child,
        name,
    ) by {
        lemma_without_name(g, gone, child, name);
    }
    assert forall|name: Seq<char>|
        #![trigger is_reference(n, name)]
        names_of(n).contains(name) && is_reference(n, name) implies names_of(g).contains(name)
        && is_reference(g, name) by {
        lemma_without_name(g, gone, name, name);
    }
}

/// Under relaxed rules, and with no more inherited, a child is kept from
/// no more.
pub proof fn lemma_relaxed_child_disallowed(
    dir: Seq<Seq<char>>,
    new_parent: Seq<Seq<char>>,
    old_parent: Seq<Seq<char>>,
    new: Option<Graph>,
    old: Option<Graph>,
    child: Seq<char>,
)
    requires
        rules_relaxed(new, old),
        within(new_parent, old_parent),
    ensures
        within(
            child_disallowed(dir, new_parent, new, child),
            child_disallowed(dir, old_parent, old, child),
        ),
{
    assert forall|p: Seq<char>| child_disallowed(dir, new_parent, new, child).contains(
        p,
    ) implies child_disallowed(dir, old_parent, old, child).contains(p) by {
        lemma_child_disallowed_members(dir, new_parent, new, child, p);
        lemma_child_disallowed_members(dir, old_parent, old, child, p);
        if !new_parent.contains(p) {
            let n = new->0;
            let name = choose|name: Seq<char>|
                names_of(n).contains(name) && is_denied_sibling(n, child, name) && p == child_path(
                    dir,
                    name,
                );
            assert(is_denied_sibling(old->0, child, name));
        }
    }
}

/// Whether the tree `new` is the tree `old` with relaxed rules: the same
/// directories and files, and in each directory rules that restrict no
/// more.
pub open spec fn relaxed(new: DirView, old: DirView) -> bool
    decreases new,
{
    &&& new.name == old.name
    &&& new.files == old.files
    &&& new.directories.len() == old.directories.len()
    &&& rules_relaxed(new.rules, old.rules)
    &&& forall|i: int|
        0 <= i < new.directories.len() ==> relaxed(#[trigger] new.directories[i], old.directories[i])
}

/// A tree is itself with relaxed rules.
pub proof fn lemma_relaxed_reflexive(dir: DirView)
    ensures
        relaxed(dir, dir),
    decreases dir,
{
    assert forall|i: int| 0 <= i < dir.directories.len() implies relaxed(
        #[trigger] dir.directories[i],
        dir.directories[i],
    ) by {
        lemma_relaxed_reflexive(dir.directories[i]);
    }
}

/// Lists of directories with the same names find a name at the same
/// position.
pub proof fn lemma_same_names_position(a: Seq<DirView>, b: Seq<DirView>, name: Seq<char>)
    requires
        a.len() == b.len(),
        forall|i: int| 0 <= i < a.len() ==> (#[trigger] a[i]).name == b[i].name,
    ensures
        child_position(a, name) == child_position(b, name),
    decreases a.len(),
{
    if a.len() > 0 {
        assert(a[0].name == b[0].name);
        if a[0].name != name {
            assert forall|i: int| 0 <= i < a.drop_first().len() implies (#[trigger] a.drop_first()[i]).name
                == b.drop_first()[i].name by {
                assert(a.drop_first()[i] == a[i + 1]);
                assert(a[i + 1].name == b[i + 1].name);
            }
            lemma_same_names_position(a.drop_first(), b.drop_first(), name);
        }
    }
}

/// In a tree and the same tree with relaxed rules, a name leads to the
/// same child.
pub proof fn lemma_relaxed_child(new: DirView, old: DirView, name: Seq<char>)
    requires
        relaxed(new, old),
    ensures
        child_position(new.directories, name) == child_position(old.directories, name),
        child_names(new) == child_names(old),
        child_named(new, name) is Some <==> child_named(old, name) is Some,
        child_named(new, name) is Some ==> relaxed(
            child_named(new, name)->0,
            child_named(old, name)->0,
        ),
{
    assert forall|i: int| 0 <= i < new.directories.len() implies (#[trigger] new.directories[i]).name
        == old.directories[i].name by {
        assert(relaxed(new.directories[i], old.directories[i]));
    }
    lemma_same_names_position(new.directories, old.directories, name);
    lemma_child_position(new.directories, name);
    assert(child_names(new) =~= child_names(old));
    let at = child_position(new.directories, name);
    if 0 <= at < new.directories.len() {
        assert(relaxed(new.directories[at], old.directories[at]));
    }
}

/// In a tree and the same tree with relaxed rules, a path leads to the
/// same directory.
pub proof fn lemma_relaxed_dir_at(new: DirView, old: DirView, path: Seq<Seq<char>>)
    requires
        relaxed(new, old),
    ensures
        dir_at(new, path) is Some <==> dir_at(old, path) is Some,
        dir_at(new, path) is Some ==> relaxed(dir_at(new, path)->0, dir_at(old, path)->0),
        rules_relaxed(rules_at(new, path), rules_at(old, path)),
    decreases path.len(),
{
    if path.len() > 0 {
        lemma_relaxed_child(new, old, path[0]);
        if child_named(new, path[0]) is Some {
            lemma_relaxed_dir_at(
                child_named(new, path[0])->0,
                child_named(old, path[0])->0,
                path.drop_first(),
            );
        }
    }
}

/// In a tree and the same tree with relaxed rules, steps lead to the same
/// place.
pub proof fn lemma_relaxed_walk(new: DirView, old: DirView, at: Seq<Seq<char>>, steps: Seq<Seq<char>>)
    requires
        relaxed(new, old),
    ensures
        walk(new, at, steps) == walk(old, at, steps),
    decreases steps.len(),
{
    if steps.len() > 0 {
        if steps[0] == crate::paths::dot_dot() {
            if at.len() > 0 {
                lemma_relaxed_walk(new, old, at.drop_last(), steps.drop_first());
            }
        } else {
            let next = at.push(steps[0]);
            lemma_relaxed_dir_at(new, old, next);
            lemma_relaxed_walk(new, old, next, steps.drop_first());
        }
    }
}

/// The rules of a tree have no part in how an import is normalized.
pub proof fn lemma_relaxed_canonical(
    import: Seq<char>,
    new: DirView,
    old: DirView,
    current: Seq<Seq<char>>,
)
    requires
        relaxed(new, old),
    ensures
        canonical_import(import, new, current) == canonical_import(import, old, current),
{
    let steps = import_steps(import, current);
    if steps.len() > 0 {
        lemma_relaxed_walk(new, old, Seq::empty(), steps.drop_last());
    }
}

/// With relaxed rules in the tree and no more prefixes disallowed, the
/// files of a directory have no violation that they did not have.
pub proof fn lemma_relaxed_files(
    new_root: DirView,
    old_root: DirView,
    current: Seq<Seq<char>>,
    files: Seq<FileView>,
    new_disallowed: Seq<Seq<char>>,
    old_disallowed: Seq<Seq<char>>,
)
    requires
        relaxed(new_root, old_root),
        within(new_disallowed, old_disallowed),
    ensures
        within(
            files_hits(new_root, current, files, new_disallowed, false),
            files_hits(old_root, current, files, old_disallowed, false),
        ),
{
    assert forall|v: ViolationView|
        files_hits(new_root, current, files, new_disallowed, false).contains(
            v,
        ) implies files_hits(old_root, current, files, old_disallowed, false).contains(v) by {
        lemma_files_hits(new_root, current, files, new_disallowed, v);
        lemma_files_hits(old_root, current, files, old_disallowed, v);
        let i = choose|i: int|
            0 <= i < files.len() && one_file_hits(
                new_root,
                current,
                #[trigger] files[i],
                new_disallowed,
            ).contains(v);
        let file_path = child_path(current, files[i].name);
        let imports = files[i].imports;
        lemma_file_hits(new_root, current, file_path, imports, new_disallowed, v);
        lemma_file_hits(old_root, current, file_path, imports, old_disallowed, v);
        let j = choose|j: int|
            0 <= j < imports.len() && import_hits(
                file_path,
                canonical_import(#[trigger] imports[j], new_root, current),
                imports[j],
                new_disallowed,
                false,
            ).contains(v);
        lemma_relaxed_canonical(imports[j], new_root, old_root, current);
        let target = canonical_import(imports[j], new_root, current);
        lemma_import_hits(file_path, target, imports[j], new_disallowed, v);
        lemma_import_hits(file_path, target, imports[j], old_disallowed, v);
        let k = choose|k: int|
            0 <= k < new_disallowed.len() && path_begins_with(
                target,
                #[trigger] new_disallowed[k],
            ) && v == import_hit(file_path, new_disallowed[k], imports[j]);
        assert(new_disallowed.contains(new_disallowed[k]));
        let m = choose|m: int| 0 <= m < old_disallowed.len() && old_disallowed[m] == new_disallowed[k];
        assert(path_begins_with(target, old_disallowed[m]));
        assert(one_file_hits(old_root, current, files[i], old_disallowed).contains(v));
    }
}

/// With relaxed rules, a directory has no stale reference that it did not
/// have.
pub proof fn lemma_relaxed_stale(current: Seq<Seq<char>>, new: DirView, old: DirView)
    requires
        relaxed(new, old),
    ensures
        within(stale_hits(current, new), stale_hits(current, old)),
{
    assert forall|v: ViolationView| stale_hits(current, new).contains(v) implies stale_hits(
        current,
        old,
    ).contains(v) by {
        let hits = stale_hits(current, new);
        let k = choose|k: int| 0 <= k < hits.len() && hits[k] == v;
        let g = new.rules->0;
        let names = stale_names(g, child_names(new));
        let name = names[k];
        assert(names.contains(name));
        lemma_stale_names(g, child_names(new), name);
        lemma_relaxed_child(new, old, name);
        let o = old.rules->0;
        assert(is_reference(g, name));
        lemma_stale_names(o, child_names(old), name);
        let old_names = stale_names(o, child_names(old));
        let m = choose|m: int| 0 <= m < old_names.len() && old_names[m] == name;
        assert(stale_hits(current, old)[m] == v);
    }
}

/// With relaxed rules in the tree and no more prefixes disallowed, an
/// exhaustive scan of a directory finds nothing that it did not find.
pub proof fn lemma_relaxed_scan(
    new_root: DirView,
    old_root: DirView,
    new_disallowed: Seq<Seq<char>>,
    old_disallowed: Seq<Seq<char>>,
    current: Seq<Seq<char>>,
    new: DirView,
    old: DirView,
    v: ViolationView,
)
    requires
        relaxed(new_root, old_root),
        relaxed(new, old),
        within(new_disallowed, old_disallowed),
        scan_dir(new_root, new_disallowed, current, new, false, false).contains(v),
    ensures
        scan_dir(old_root, old_disallowed, current, old, false, false).contains(v),
    decreases new,
{
    lemma_scan_dir(new_root, new_disallowed, current, new, false, v);
    lemma_scan_dir(old_root, old_disallowed, current, old, false, v);
    lemma_relaxed_files(new_root, old_root, current, new.files, new_disallowed, old_disallowed);
    lemma_relaxed_stale(current, new, old);
    if scan_children(new_root, new_disallowed, current, new, 0, false).contains(v) {
        lemma_scan_children(new_root, new_disallowed, current, new, 0, v);
        lemma_scan_children(old_root, old_disallowed, current, old, 0, v);
        let i = choose|i: int|
            0 <= i < new.directories.len() && (#[trigger] child_scan(
                new_root,
                new_disallowed,
                current,
                new,
                i,
            )).contains(v);
        assert(relaxed(new.directories[i], old.directories[i]));
        let name = new.directories[i].name;
        lemma_relaxed_child(new, old, name);
        let at = child_position(new.directories, name);
        assert(relaxed(new.directories[at], old.directories[at]));
        lemma_relaxed_child_disallowed(
            current,
            new_disallowed,
            old_disallowed,
            new.rules,
            old.rules,
            name,
        );
        lemma_relaxed_scan(
            new_root,
            old_root,
            child_disallowed(current, new_disallowed, new.rules, name),
            child_disallowed(current, old_disallowed, old.rules, name),
            current.push(name),
            new.directories[at],
            old.directories[at],
            v,
        );
        assert(child_scan(old_root, old_disallowed, current, old, i).contains(v));
    }
}

/// With relaxed rules in the tree, a directory is kept from nothing that
/// it was not kept from.
pub proof fn lemma_relaxed_disallowed_at(new: DirView, old: DirView, path: Seq<Seq<char>>)
    requires
        relaxed(new, old),
    ensures
        within(disallowed_at(new, path), disallowed_at(old, path)),
    decreases path.len(),
{
    if path.len() > 0 {
        let parent = path.drop_last();
        lemma_relaxed_disallowed_at(new, old, parent);
        lemma_relaxed_dir_at(new, old, parent);
        lemma_relaxed_child_disallowed(
            parent,
            disallowed_at(new, parent),
            disallowed_at(old, parent),
            rules_at(new, parent),
            rules_at(old, parent),
            path.last(),
        );
    }
}

/// A repair that relaxes the rules of one directory relaxes the tree.
pub proof fn lemma_with_rules_relaxed(root: DirView, path: Seq<Seq<char>>, rules: Option<Graph>)
    requires
        dir_at(root, path) is Some,
        rules_relaxed(rules, dir_at(root, path)->0.rules),
    ensures
        relaxed(with_rules_at(root, path, rules), root),
        dir_at(with_rules_at(root, path, rules), path) is Some,
        dir_at(with_rules_at(root, path, rules), path)->0.rules == rules,
    decreases path.len(),
{
    let new = with_rules_at(root, path, rules);
    if path.len() == 0 {
        assert forall|i: int| 0 <= i < new.directories.len() implies relaxed(
            #[trigger] new.directories[i],
            root.directories[i],
        ) by {
            lemma_relaxed_reflexive(root.directories[i]);
        }
    } else {
        let at = child_position(root.directories, path[0]);
        lemma_child_position(root.directories, path[0]);
        let child = root.directories[at];
        lemma_with_rules_relaxed(child, path.drop_first(), rules);
        let new_child = with_rules_at(child, path.drop_first(), rules);
        assert(new.directories[at] == new_child);
        assert forall|i: int| 0 <= i < new.directories.len() implies relaxed(
            #[trigger] new.directories[i],
            root.directories[i],
        ) by {
            if i != at {
                lemma_relaxed_reflexive(root.directories[i]);
            }
        }
        lemma_rules_relaxed_reflexive(root.rules);
        lemma_relaxed_child(new, root, path[0]);
    }
}

/// With relaxed rules in the tree, an exhaustive scan of a target finds
/// nothing that it did not find.
pub proof fn lemma_relaxed_target(new: DirView, old: DirView, target: Seq<Seq<char>>)
    requires
        relaxed(new, old),
    ensures
        scan_target(new, target, false) is Some <==> scan_target(old, target, false) is Some,
        scan_target(new, target, false) is Some ==> within(
            scan_target(new, target, false)->0,
            scan_target(old, target, false)->0,
        ),
{
    lemma_relaxed_dir_at(new, old, target);
    lemma_relaxed_disallowed_at(new, old, target);
    if dir_at(new, target) is Some {
        assert forall|v: ViolationView| scan_target(new, target, false)->0.contains(
            v,
        ) implies scan_target(old, target, false)->0.contains(v) by {
            lemma_relaxed_scan(
                new,
                old,
                disallowed_at(new, target),
                disallowed_at(old, target),
                target,
                dir_at(new, target)->0,
                dir_at(old, target)->0,
                v,
            );
        }
    } else if target.len() > 0 {
        let parent = target.drop_last();
        lemma_relaxed_dir_at(new, old, parent);
        lemma_relaxed_disallowed_at(new, old, parent);
        if dir_at(new, parent) is Some {
            let d = dir_at(new, parent)->0;
            let o = dir_at(old, parent)->0;
            let at = file_position(d.files, target.last());
            if 0 <= at < d.files.len() {
                lemma_relaxed_files(
                    new,
                    old,
                    parent,
                    seq![d.files[at]],
                    disallowed_at(new, parent),
                    disallowed_at(old, parent),
                );
            }
        }
    }
}

/// Rules relaxed from relaxed rules are relaxed.
pub proof fn lemma_rules_relaxed_transitive(a: Option<Graph>, b: Option<Graph>, c: Option<Graph>)
    requires
        rules_relaxed(a, b),
        rules_relaxed(b, c),
    ensures
        rules_relaxed(a, c),
{
    if let Some(n) = a {
        let m = b->0;
        let o = c->0;
        assert forall|child: Seq<char>, name: Seq<char>|
            #![trigger is_denied_sibling(n, child, name)]
            has_source(n, child) && names_of(n).contains(name) && is_denied_sibling(
                n,
                child,
                name,
            ) implies has_source(o, child) && names_of(o).contains(name) && is_denied_sibling(
            o,
            child,
            name,
        ) by {
            assert(is_denied_sibling(m, child, name));
        }
        assert forall|name: Seq<char>|
            #![trigger is_reference(n, name)]
            names_of(n).contains(name) && is_reference(n, name) implies names_of(o).contains(name)
            && is_reference(o, name) by {
            assert(is_reference(m, name));
        }
    }
}

/// A tree relaxed from a relaxed tree is relaxed.
pub proof fn lemma_relaxed_transitive(a: DirView, b: DirView, c: DirView)
    requires
        relaxed(a, b),
        relaxed(b, c),
    ensures
        relaxed(a, c),
    decreases a,
{
    lemma_rules_relaxed_transitive(a.rules, b.rules, c.rules);
    assert forall|i: int| 0 <= i < a.directories.len() implies relaxed(
        #[trigger] a.directories[i],
        c.directories[i],
    ) by {
        assert(relaxed(a.directories[i], b.directories[i]));
        assert(relaxed(b.directories[i], c.directories[i]));
        lemma_relaxed_transitive(a.directories[i], b.directories[i], c.directories[i]);
    }
}

} // verus!
