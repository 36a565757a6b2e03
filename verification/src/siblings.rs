//! The order of sibling directories has no part in what an exhaustive scan
//! finds: trees that hold the same directories under the same names give
//! the same violations.
use vstd::prelude::*;
use crate::allows::Graph;
use crate::disallowed::{child_disallowed, child_path};
use crate::found::{child_scan, lemma_scan_children, lemma_scan_dir};
use crate::normalize::{canonical_import, import_steps, walk};
use crate::paths::dot_dot;
use crate::relaxed::within;
use crate::rules::stale_among;
use crate::tree::{child_named, child_position, dir_at, lemma_child_position, DirView, FileView};
use crate::violations::ViolationView;
use crate::visit::{
    child_names, disallowed_at, file_hits, file_position, files_hits, rules_at, scan_children,
    scan_dir, scan_target, stale_hits,
};

verus! {

/// Whether the tree `a` is found again in the tree `b` name by name: the
/// same files and rules, every child directory of `a` under its name in
/// `b`, found again in the same way, and no other name among the child
/// directories of `b`. The order of the child directories is left open.
pub open spec fn same_by_name(a: DirView, b: DirView) -> bool
    decreases a,
{
    &&& a.files == b.files
    &&& a.rules == b.rules
    &&& forall|i: int|
        0 <= i < a.directories.len() ==> child_named(b, (#[trigger] a.directories[i]).name) is Some
            && same_by_name(a.directories[i], child_named(b, a.directories[i].name)->0)
    &&& forall|j: int|
        0 <= j < b.directories.len() ==> child_named(a, (#[trigger] b.directories[j]).name) is Some
}

/// In trees that are the same name by name, a name leads to the same
/// child.
pub proof fn lemma_by_name_child(a: DirView, b: DirView, name: Seq<char>)
    requires
        same_by_name(a, b),
    ensures
        child_named(a, name) is Some <==> child_named(b, name) is Some,
        child_named(a, name) is Some ==> same_by_name(
            child_named(a, name)->0,
            child_named(b, name)->0,
        ),
{
    lemma_child_position(a.directories, name);
    lemma_child_position(b.directories, name);
    let p = child_position(a.directories, name);
    let q = child_position(b.directories, name);
    if p < a.directories.len() {
        assert(a.directories[p].name == name);
    }
    if q < b.directories.len() {
        assert(b.directories[q].name == name);
    }
}

/// In trees that are the same name by name, a path leads to the same
/// directory.
pub proof fn lemma_by_name_dir_at(a: DirView, b: DirView, path: Seq<Seq<char>>)
    requires
        same_by_name(a, b),
    ensures
        dir_at(a, path) is Some <==> dir_at(b, path) is Some,
        dir_at(a, path) is Some ==> same_by_name(dir_at(a, path)->0, dir_at(b, path)->0),
        rules_at(a, path) == rules_at(b, path),
    decreases path.len(),
{
    if path.len() > 0 {
        lemma_by_name_child(a, b, path[0]);
        if child_named(a, path[0]) is Some {
            lemma_by_name_dir_at(
                child_named(a, path[0])->0,
                child_named(b, path[0])->0,
                path.drop_first(),
            );
        }
    }
}

/// In trees that are the same name by name, steps lead to the same place.
pub proof fn lemma_by_name_walk(a: DirView, b: DirView, at: Seq<Seq<char>>, steps: Seq<Seq<char>>)
    requires
        same_by_name(a, b),
    ensures
        walk(a, at, steps) == walk(b, at, steps),
    decreases steps.len(),
{
    if steps.len() > 0 {
        if steps[0] == dot_dot() {
            if at.len() > 0 {
                lemma_by_name_walk(a, b, at.drop_last(), steps.drop_first());
            }
        } else {
            let next = at.push(steps[0]);
            lemma_by_name_dir_at(a, b, next);
            lemma_by_name_walk(a, b, next, steps.drop_first());
        }
    }
}

/// In trees that are the same name by name, an import is normalized to the
/// same path.
pub proof fn lemma_by_name_canonical(
    import: Seq<char>,
    a: DirView,
    b: DirView,
    current: Seq<Seq<char>>,
)
    requires
        same_by_name(a, b),
    ensures
        canonical_import(import, a, current) == canonical_import(import, b, current),
{
    let steps = import_steps(import, current);
    if steps.len() > 0 {
        lemma_by_name_walk(a, b, Seq::empty(), steps.drop_last());
    }
}

/// In trees that are the same name by name, a file has the same
/// violations.
pub proof fn lemma_by_name_file(
    a: DirView,
    b: DirView,
    current: Seq<Seq<char>>,
    file_path: Seq<char>,
    imports: Seq<Seq<char>>,
    disallowed: Seq<Seq<char>>,
)
    requires
        same_by_name(a, b),
    ensures
        file_hits(a, current, file_path, imports, disallowed, false) == file_hits(
            b,
            current,
            file_path,
            imports,
            disallowed,
            false,
        ),
    decreases imports.len(),
{
    if imports.len() > 0 {
        lemma_by_name_canonical(imports[0], a, b, current);
        lemma_by_name_file(a, b, current, file_path, imports.drop_first(), disallowed);
    }
}

/// In trees that are the same name by name, the files of a directory have
/// the same violations.
pub proof fn lemma_by_name_files(
    a: DirView,
    b: DirView,
    current: Seq<Seq<char>>,
    files: Seq<FileView>,
    disallowed: Seq<Seq<char>>,
)
    requires
        same_by_name(a, b),
    ensures
        files_hits(a, current, files, disallowed, false) == files_hits(
            b,
            current,
            files,
            disallowed,
            false,
        ),
    decreases files.len(),
{
    if files.len() > 0 {
        lemma_by_name_file(
            a,
            b,
            current,
            child_path(current, files[0].name),
            files[0].imports,
            disallowed,
        );
        lemma_by_name_files(a, b, current, files.drop_first(), disallowed);
    }
}

/// Which references are stale rests on which directories there are, not
/// on their order.
pub proof fn lemma_stale_among_by_members(
    g: Graph,
    first: Seq<Seq<char>>,
    second: Seq<Seq<char>>,
    names: Seq<Seq<char>>,
)
    requires
        forall|x: Seq<char>| first.contains(x) <==> second.contains(x),
    ensures
        stale_among(g, first, names) == stale_among(g, second, names),
    decreases names.len(),
{
    if names.len() > 0 {
        lemma_stale_among_by_members(g, first, second, names.drop_last());
    }
}

/// Directories that are the same name by name have the same stale
/// references.
pub proof fn lemma_by_name_stale(current: Seq<Seq<char>>, a: DirView, b: DirView)
    requires
        same_by_name(a, b),
    ensures
        stale_hits(current, a) == stale_hits(current, b),
{
    let first = child_names(a);
    let second = child_names(b);
    assert forall|x: Seq<char>| first.contains(x) <==> second.contains(x) by {
        lemma_by_name_child(a, b, x);
        lemma_child_position(a.directories, x);
        lemma_child_position(b.directories, x);
        if first.contains(x) {
            let i = choose|i: int| 0 <= i < first.len() && first[i] == x;
            assert(a.directories[i].name == x);
            let q = child_position(b.directories, x);
            assert(second[q] == x);
        }
        if second.contains(x) {
            let j = choose|j: int| 0 <= j < second.len() && second[j] == x;
            assert(b.directories[j].name == x);
            let p = child_position(a.directories, x);
            assert(first[p] == x);
        }
    }
    if let Some(g) = a.rules {
        lemma_stale_among_by_members(g, first, second, crate::rules::names_of(g));
        assert(stale_hits(current, a) =~= stale_hits(current, b));
    }
}

/// What an exhaustive scan of a directory finds, it finds in every tree
/// that is the same name by name, whatever the order of the siblings.
pub proof fn lemma_by_name_scan(
    root_a: DirView,
    root_b: DirView,
    disallowed: Seq<Seq<char>>,
    current: Seq<Seq<char>>,
    a: DirView,
    b: DirView,
    v: ViolationView,
)
    requires
        same_by_name(root_a, root_b),
        same_by_name(a, b),
        scan_dir(root_a, disallowed, current, a, false, false).contains(v),
    ensures
        scan_dir(root_b, disallowed, current, b, false, false).contains(v),
    decreases a,
{
    lemma_scan_dir(root_a, disallowed, current, a, false, v);
    lemma_scan_dir(root_b, disallowed, current, b, false, v);
    lemma_by_name_files(root_a, root_b, current, a.files, disallowed);
    lemma_by_name_stale(current, a, b);
    if scan_children(root_a, disallowed, current, a, 0, false).contains(v) {
        lemma_scan_children(root_a, disallowed, current, a, 0, v);
        lemma_scan_children(root_b, disallowed, current, b, 0, v);
        let i = choose|i: int|
            0 <= i < a.directories.len() && (#[trigger] child_scan(
                root_a,
                disallowed,
                current,
                a,
                i,
            )).contains(v);
        let name = a.directories[i].name;
        let p = child_position(a.directories, name);
        let q = child_position(b.directories, name);
        lemma_child_position(a.directories, name);
        lemma_child_position(b.directories, name);
        lemma_by_name_child(a, b, name);
        assert(a.directories[p].name == name);
        assert(same_by_name(a.directories[p], b.directories[q]));
        lemma_by_name_scan(
            root_a,
            root_b,
            child_disallowed(current, disallowed, a.rules, name),
            current.push(name),
            a.directories[p],
            b.directories[q],
            v,
        );
        assert(b.directories[q].name == name);
        assert(child_scan(root_b, disallowed, current, b, q).contains(v));
    }
}

/// In trees that are the same name by name, a directory may not import the
/// same prefixes.
pub proof fn lemma_by_name_disallowed_at(a: DirView, b: DirView, path: Seq<Seq<char>>)
    requires
        same_by_name(a, b),
    ensures
        disallowed_at(a, path) == disallowed_at(b, path),
    decreases path.len(),
{
    if path.len() > 0 {
        lemma_by_name_disallowed_at(a, b, path.drop_last());
        lemma_by_name_dir_at(a, b, path.drop_last());
    }
}

/// The order in which sibling directories stand has no part in what an
/// exhaustive scan of a target finds: a tree that is the same name by name
/// gives every violation that the scan finds.
pub proof fn lemma_sibling_order_is_free(a: DirView, b: DirView, target: Seq<Seq<char>>)
    requires
        same_by_name(a, b),
    ensures
        scan_target(a, target, false) is Some <==> scan_target(b, target, false) is Some,
        scan_target(a, target, false) is Some ==> within(
            scan_target(a, target, false)->0,
            scan_target(b, target, false)->0,
        ),
{
    lemma_by_name_dir_at(a, b, target);
    lemma_by_name_disallowed_at(a, b, target);
    if dir_at(a, target) is Some {
        assert forall|v: ViolationView| scan_target(a, target, false)->0.contains(
            v,
        ) implies scan_target(b, target, false)->0.contains(v) by {
            lemma_by_name_scan(
                a,
                b,
                disallowed_at(a, target),
                target,
                dir_at(a, target)->0,
                dir_at(b, target)->0,
                v,
            );
        }
    } else if target.len() > 0 {
        let parent = target.drop_last();
        lemma_by_name_dir_at(a, b, parent);
        lemma_by_name_disallowed_at(a, b, parent);
        if dir_at(a, parent) is Some {
            let d = dir_at(a, parent)->0;
            let at = file_position(d.files, target.last());
            if 0 <= at < d.files.len() {
                lemma_by_name_files(a, b, parent, seq![d.files[at]], disallowed_at(a, parent));
            }
        }
    }
}

/// Whether no two child directories of `dirs` have the same name.
pub open spec fn names_differ(dirs: Seq<DirView>) -> bool {
    forall|i: int, j: int|
        0 <= i < dirs.len() && 0 <= j < dirs.len() && i != j ==> (#[trigger] dirs[i]).name
            != (#[trigger] dirs[j]).name
}

/// Whether no two sibling directories in the tree below `dir` have the
/// same name, as in every tree that is read from a file system.
pub open spec fn siblings_differ(dir: DirView) -> bool
    decreases dir,
{
    &&& names_differ(dir.directories)
    &&& forall|i: int|
        0 <= i < dir.directories.len() ==> siblings_differ(#[trigger] dir.directories[i])
}

/// Among directories with different names, a name leads to the one that
/// has it.
pub proof fn lemma_child_of_its_name(dir: DirView, i: int)
    requires
        names_differ(dir.directories),
        0 <= i < dir.directories.len(),
    ensures
        child_named(dir, dir.directories[i].name) == Some(dir.directories[i]),
{
    let name = dir.directories[i].name;
    lemma_child_position(dir.directories, name);
    let p = child_position(dir.directories, name);
    if p != i {
        assert(dir.directories[p].name == dir.directories[i].name);
    }
}

/// A tree whose siblings have different names is the same as itself, name
/// by name.
pub proof fn lemma_same_as_itself(dir: DirView)
    requires
        siblings_differ(dir),
    ensures
        same_by_name(dir, dir),
    decreases dir,
{
    assert forall|i: int| 0 <= i < dir.directories.len() implies child_named(
        dir,
        (#[trigger] dir.directories[i]).name,
    ) is Some && same_by_name(dir.directories[i], child_named(dir, dir.directories[i].name)->0) by {
        lemma_child_of_its_name(dir, i);
        lemma_same_as_itself(dir.directories[i]);
    }
    assert forall|j: int| 0 <= j < dir.directories.len() implies child_named(
        dir,
        (#[trigger] dir.directories[j]).name,
    ) is Some by {
        lemma_child_of_its_name(dir, j);
    }
}

/// A directory with its child directories in another order is the same
/// name by name, in both directions, where siblings have different names.
pub proof fn lemma_reordered_is_same(a: DirView, b: DirView)
    requires
        siblings_differ(a),
        names_differ(b.directories),
        a.files == b.files,
        a.rules == b.rules,
        forall|i: int|
            0 <= i < a.directories.len() ==> b.directories.contains(#[trigger] a.directories[i]),
        forall|j: int|
            0 <= j < b.directories.len() ==> a.directories.contains(#[trigger] b.directories[j]),
    ensures
        same_by_name(a, b),
        same_by_name(b, a),
{
    assert forall|i: int| 0 <= i < a.directories.len() implies child_named(
        b,
        (#[trigger] a.directories[i]).name,
    ) is Some && same_by_name(a.directories[i], child_named(b, a.directories[i].name)->0) by {
        let child = a.directories[i];
        assert(b.directories.contains(child));
        let j = choose|j: int| 0 <= j < b.directories.len() && b.directories[j] == child;
        lemma_child_of_its_name(b, j);
        lemma_same_as_itself(child);
    }
    assert forall|j: int| 0 <= j < b.directories.len() implies child_named(
        a,
        (#[trigger] b.directories[j]).name,
    ) is Some && same_by_name(b.directories[j], child_named(a, b.directories[j].name)->0) by {
        let child = b.directories[j];
        assert(a.directories.contains(child));
        let i = choose|i: int| 0 <= i < a.directories.len() && a.directories[i] == child;
        lemma_child_of_its_name(a, i);
        lemma_same_as_itself(child);
    }
}

} // verus!
