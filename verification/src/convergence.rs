//! Why the fix engine comes to an end: a repair takes the violation that
//! it answers out of every later scan and puts no new violation in, so
//! each round of repair leaves fewer distinct violations.
use vstd::prelude::*;
use crate::RULES_FILE_NAME;
use crate::allows::{has_edge, has_source};
use crate::disallowed::{
    child_disallowed, child_path, is_denied_sibling, lemma_child_disallowed_members,
};
use crate::fix::{
    FixError, fix_target, fix_targets, import_repair, repair, repair_all, stale_repair,
    MAX_FIX_ROUNDS,
};
use crate::found::{
    child_scan, lemma_file_hits, lemma_files_hits, lemma_import_hits,
    lemma_fail_fast_finds_at_most_one, lemma_scan_children, lemma_scan_dir,
    lemma_target_fail_fast, one_file_hits,
};
use crate::normalize::canonical_import;
use crate::paths::{components, is_plain_name, lemma_components_of_join, path_begins_with};
use crate::plain::{
    lemma_plain_dir_at, lemma_rules_file_name_plain, lemma_with_rules_plain, tree_plain,
};
use crate::relaxed::{
    lemma_relaxed_dir_at, lemma_relaxed_disallowed_at, lemma_relaxed_files,
    lemma_relaxed_reflexive, lemma_relaxed_stale, lemma_relaxed_target,
    lemma_relaxed_transitive, lemma_with_allowed_relaxes, lemma_with_rules_relaxed,
    lemma_without_name_relaxes, relaxed, within,
};
use crate::rules::{
    lemma_stale_names, lemma_with_allowed, names_of, stale_names, with_allowed, without_name,
};
use crate::tree::{
    child_position, dir_at, lemma_child_position, lemma_dir_at_prefix, lemma_dir_at_push,
    with_rules_at, DirView,
};
use crate::violations::ViolationView;
use crate::visit::{
    child_names, disallowed_at, file_position, files_hits, import_hit, import_hits, rules_at,
    scan_dir, scan_target, stale_hits,
};

verus! {

/// Whether the directory at `path` has the violation `v`: it is among the
/// violations of its files or among the stale references of its rules.
pub open spec fn found_at(root: DirView, path: Seq<Seq<char>>, v: ViolationView) -> bool {
    dir_at(root, path) is Some && (files_hits(
        root,
        path,
        dir_at(root, path)->0.files,
        disallowed_at(root, path),
        false,
    ).contains(v) || stale_hits(path, dir_at(root, path)->0).contains(v))
}

/// Whatever an exhaustive scan from a directory of the tree finds, some
/// directory of the tree has.
pub proof fn lemma_scan_found_somewhere(
    root: DirView,
    current: Seq<Seq<char>>,
    dir: DirView,
    v: ViolationView,
)
    requires
        dir_at(root, current) == Some(dir),
        scan_dir(root, disallowed_at(root, current), current, dir, false, false).contains(v),
    ensures
        exists|path: Seq<Seq<char>>| found_at(root, path, v),
    decreases dir,
{
    let disallowed = disallowed_at(root, current);
    lemma_scan_dir(root, disallowed, current, dir, false, v);
    if files_hits(root, current, dir.files, disallowed, false).contains(v) || stale_hits(
        current,
        dir,
    ).contains(v) {
        assert(found_at(root, current, v));
    } else {
        lemma_scan_children(root, disallowed, current, dir, 0, v);
        let i = choose|i: int|
            0 <= i < dir.directories.len() && (#[trigger] child_scan(
                root,
                disallowed,
                current,
                dir,
                i,
            )).contains(v);
        let name = dir.directories[i].name;
        let at = child_position(dir.directories, name);
        lemma_child_position(dir.directories, name);
        lemma_dir_at_push(root, current, name);
        let next = current.push(name);
        assert(next.drop_last() =~= current);
        assert(disallowed_at(root, next) == child_disallowed(current, disallowed, dir.rules, name));
        lemma_scan_found_somewhere(root, next, dir.directories[at], v);
    }
}

/// Whatever an exhaustive scan of a target finds, some directory of the
/// tree has.
pub proof fn lemma_target_found_somewhere(root: DirView, target: Seq<Seq<char>>, v: ViolationView)
    requires
        scan_target(root, target, false) is Some,
        scan_target(root, target, false)->0.contains(v),
    ensures
        exists|path: Seq<Seq<char>>| found_at(root, path, v),
{
    if dir_at(root, target) is Some {
        lemma_scan_found_somewhere(root, target, dir_at(root, target)->0, v);
    } else {
        let parent = target.drop_last();
        let dir = dir_at(root, parent)->0;
        let at = file_position(dir.files, target.last());
        let disallowed = disallowed_at(root, parent);
        let one = seq![dir.files[at]];
        lemma_files_hits(root, parent, one, disallowed, v);
        lemma_files_hits(root, parent, dir.files, disallowed, v);
        let i = choose|i: int|
            0 <= i < one.len() && one_file_hits(root, parent, #[trigger] one[i], disallowed).contains(
                v,
            );
        assert(one[i] == dir.files[at]);
        assert(one_file_hits(root, parent, dir.files[at], disallowed).contains(v));
        assert(found_at(root, parent, v));
    }
}

/// Whether the rules of the directory `k` levels down the path `path` keep
/// the next directory of the path from the prefix `prefix`.
pub open spec fn denied_at_level(root: DirView, path: Seq<Seq<char>>, k: int, prefix: Seq<char>) -> bool {
    &&& 0 <= k < path.len()
    &&& rules_at(root, path.take(k)) is Some
    &&& has_source(rules_at(root, path.take(k))->0, path[k])
    &&& exists|name: Seq<char>|
        names_of(rules_at(root, path.take(k))->0).contains(name) && is_denied_sibling(
            rules_at(root, path.take(k))->0,
            path[k],
            name,
        ) && prefix == child_path(path.take(k), name)
}

/// Every prefix that a directory may not import comes from the rules of a
/// directory above it.
pub proof fn lemma_disallowed_at_members(root: DirView, path: Seq<Seq<char>>, prefix: Seq<char>)
    requires
        disallowed_at(root, path).contains(prefix),
    ensures
        exists|k: int| denied_at_level(root, path, k, prefix),
    decreases path.len(),
{
    if path.len() > 0 {
        let parent = path.drop_last();
        let n = path.len() - 1;
        assert(parent =~= path.take(n));
        lemma_child_disallowed_members(
            parent,
            disallowed_at(root, parent),
            rules_at(root, parent),
            path.last(),
            prefix,
        );
        if disallowed_at(root, parent).contains(prefix) {
            lemma_disallowed_at_members(root, parent, prefix);
            let k = choose|k: int| denied_at_level(root, parent, k, prefix);
            assert(parent.take(k) =~= path.take(k));
            assert(parent[k] == path[k]);
            assert(denied_at_level(root, path, k, prefix));
        } else {
            assert(denied_at_level(root, path, n, prefix));
        }
    } else {
        assert(disallowed_at(root, path) =~= Seq::<Seq<char>>::empty());
    }
}

/// The violations of files are disallowed imports: each names a file of
/// the directory and a prefix that the directory may not import.
pub proof fn lemma_file_violation_shape(
    root: DirView,
    path: Seq<Seq<char>>,
    v: ViolationView,
)
    requires
        dir_at(root, path) is Some,
        files_hits(root, path, dir_at(root, path)->0.files, disallowed_at(root, path), false).contains(
            v,
        ),
    ensures
        v is DisallowedImport,
        disallowed_at(root, path).contains(v->disallowed_import),
        exists|i: int|
            0 <= i < dir_at(root, path)->0.files.len() && v->file_path == child_path(
                path,
                (#[trigger] dir_at(root, path)->0.files[i]).name,
            ),
{
    let dir = dir_at(root, path)->0;
    let disallowed = disallowed_at(root, path);
    lemma_files_hits(root, path, dir.files, disallowed, v);
    let i = choose|i: int|
        0 <= i < dir.files.len() && one_file_hits(root, path, #[trigger] dir.files[i], disallowed).contains(
            v,
        );
    let file_path = child_path(path, dir.files[i].name);
    let imports = dir.files[i].imports;
    lemma_file_hits(root, path, file_path, imports, disallowed, v);
    let j = choose|j: int|
        0 <= j < imports.len() && import_hits(
            file_path,
            canonical_import(#[trigger] imports[j], root, path),
            imports[j],
            disallowed,
            false,
        ).contains(v);
    let target = canonical_import(imports[j], root, path);
    lemma_import_hits(file_path, target, imports[j], disallowed, v);
    let k = choose|k: int|
        0 <= k < disallowed.len() && path_begins_with(target, #[trigger] disallowed[k]) && v
            == import_hit(file_path, disallowed[k], imports[j]);
    assert(disallowed.contains(disallowed[k]));
}

/// After the repair of a disallowed import, no directory of the tree has
/// that violation.
pub proof fn lemma_import_repair_eliminates(
    root: DirView,
    file_path: Seq<char>,
    prefix: Seq<char>,
    raw: Seq<char>,
    path: Seq<Seq<char>>,
)
    requires
        tree_plain(root),
        import_repair(root, file_path, prefix) is Some,
    ensures
        !found_at(import_repair(root, file_path, prefix)->0, path, import_hit(file_path, prefix, raw)),
{
    let new = import_repair(root, file_path, prefix)->0;
    let v = import_hit(file_path, prefix, raw);
    lemma_repair_relaxes(root, v);
    if found_at(new, path, v) {
        let dir = dir_at(new, path)->0;
        let stale = stale_hits(path, dir);
        if stale.contains(v) {
            let k = choose|k: int| 0 <= k < stale.len() && stale[k] == v;
            assert(stale[k] is NonexistentDirectory);
        }
        lemma_file_violation_shape(new, path, v);
        let i = choose|i: int|
            0 <= i < dir.files.len() && file_path == child_path(path, (#[trigger] dir.files[i]).name);
        lemma_disallowed_at_members(new, path, prefix);
        let k = choose|k: int| denied_at_level(new, path, k, prefix);
        let above = path.take(k);
        let g = rules_at(new, above)->0;
        let name = choose|name: Seq<char>|
            names_of(g).contains(name) && is_denied_sibling(g, path[k], name) && prefix
                == child_path(above, name);
        // All names on the way are plain.
        lemma_plain_dir_at(new, path);
        lemma_dir_at_prefix(new, path, k);
        lemma_plain_dir_at(new, above);
        assert(is_plain_name(dir.files[i].name));
        assert(is_plain_name(name));
        let entry = above.push(name);
        assert forall|j: int| 0 <= j < entry.len() implies is_plain_name(#[trigger] entry[j]) by {
            if j < k {
                assert(entry[j] == path[j]);
            }
        }
        lemma_components_of_join(entry);
        let file = path.push(dir.files[i].name);
        assert forall|j: int| 0 <= j < file.len() implies is_plain_name(#[trigger] file[j]) by {
            if j < path.len() {
                assert(file[j] == path[j]);
            }
        }
        lemma_components_of_join(file);
        // So the repair went to the rules that keep the prefix.
        assert(components(prefix) == entry);
        assert(components(file_path) == file);
        assert(entry.drop_last() =~= above);
        assert(entry.last() == name);
        assert(file[above.len() as int] == path[k]);
        let old = dir_at(root, above)->0.rules->0;
        lemma_with_allowed_relaxes(old, path[k], name);
        lemma_with_rules_relaxed(root, above, Some(with_allowed(old, path[k], name)));
        assert(g == with_allowed(old, path[k], name));
        lemma_with_allowed(old, path[k], name, path[k], name);
        assert(has_edge(g, path[k], name));
    }
}

/// After the repair of a stale reference, no directory of the tree has
/// that violation.
pub proof fn lemma_stale_repair_eliminates(
    root: DirView,
    rules_file_path: Seq<char>,
    name: Seq<char>,
    path: Seq<Seq<char>>,
)
    requires
        tree_plain(root),
        stale_repair(root, rules_file_path, name) is Some,
    ensures
        !found_at(
            stale_repair(root, rules_file_path, name)->0,
            path,
            ViolationView::NonexistentDirectory {
                rules_file_path,
                nonexistent_directory: name,
            },
        ),
{
    let new = stale_repair(root, rules_file_path, name)->0;
    let v = ViolationView::NonexistentDirectory { rules_file_path, nonexistent_directory: name };
    lemma_repair_relaxes(root, v);
    if found_at(new, path, v) {
        let dir = dir_at(new, path)->0;
        if files_hits(new, path, dir.files, disallowed_at(new, path), false).contains(v) {
            lemma_file_violation_shape(new, path, v);
        }
        let stale = stale_hits(path, dir);
        let k = choose|k: int| 0 <= k < stale.len() && stale[k] == v;
        let g = dir.rules->0;
        let names = stale_names(g, child_names(dir));
        assert(names[k] == name);
        assert(names.contains(name));
        lemma_stale_names(g, child_names(dir), name);
        assert(rules_file_path == child_path(path, RULES_FILE_NAME@));
        lemma_plain_dir_at(new, path);
        lemma_rules_file_name_plain();
        let file = path.push(RULES_FILE_NAME@);
        assert forall|j: int| 0 <= j < file.len() implies is_plain_name(#[trigger] file[j]) by {
            if j < path.len() {
                assert(file[j] == path[j]);
            }
        }
        lemma_components_of_join(file);
        assert(file.drop_last() =~= path);
        let old = dir_at(root, path)->0.rules->0;
        lemma_without_name_relaxes(old, name);
        lemma_with_rules_relaxed(root, path, Some(without_name(old, name)));
        assert(g == without_name(old, name));
    }
}

/// A repair relaxes the rules of the tree and changes nothing else, and it
/// leaves a plain tree plain.
pub proof fn lemma_repair_relaxes(root: DirView, v: ViolationView)
    requires
        repair(root, v) is Some,
    ensures
        relaxed(repair(root, v)->0, root),
        tree_plain(root) ==> tree_plain(repair(root, v)->0),
{
    match v {
        ViolationView::DisallowedImport { file_path, disallowed_import, .. } => {
            let entry = components(disallowed_import);
            let file = components(file_path);
            let dir = entry.drop_last();
            let target = entry.last();
            let child = file[dir.len() as int];
            let g = dir_at(root, dir)->0.rules->0;
            let wide = with_allowed(g, child, target);
            lemma_with_allowed_relaxes(g, child, target);
            lemma_with_rules_relaxed(root, dir, Some(wide));
            if tree_plain(root) {
                lemma_with_rules_plain(root, dir, Some(wide));
            }
        },
        ViolationView::NonexistentDirectory { rules_file_path, nonexistent_directory } => {
            let file = components(rules_file_path);
            let dir = file.drop_last();
            let g = dir_at(root, dir)->0.rules->0;
            let less = without_name(g, nonexistent_directory);
            lemma_without_name_relaxes(g, nonexistent_directory);
            lemma_with_rules_relaxed(root, dir, Some(less));
            if tree_plain(root) {
                lemma_with_rules_plain(root, dir, Some(less));
            }
        },
    }
}

/// With relaxed rules in the tree, a directory has no violation that it
/// did not have.
pub proof fn lemma_relaxed_found_at(new: DirView, old: DirView, path: Seq<Seq<char>>, v: ViolationView)
    requires
        relaxed(new, old),
        found_at(new, path, v),
    ensures
        found_at(old, path, v),
{
    lemma_relaxed_dir_at(new, old, path);
    lemma_relaxed_disallowed_at(new, old, path);
    let dir = dir_at(new, path)->0;
    lemma_relaxed_files(
        new,
        old,
        path,
        dir.files,
        disallowed_at(new, path),
        disallowed_at(old, path),
    );
    lemma_relaxed_stale(path, dir, dir_at(old, path)->0);
}

/// A round of repairs that could all be made relaxes the rules of the
/// tree, leaves a plain tree plain, and takes the first of the repaired
/// violations out of every directory.
pub proof fn lemma_repair_all(root: DirView, found: Seq<ViolationView>, path: Seq<Seq<char>>)
    requires
        repair_all(root, found).1,
    ensures
        relaxed(repair_all(root, found).0, root),
        tree_plain(root) ==> tree_plain(repair_all(root, found).0),
        tree_plain(root) && found.len() > 0 ==> !found_at(repair_all(root, found).0, path, found[0]),
    decreases found.len(),
{
    if found.len() == 0 {
        lemma_relaxed_reflexive(root);
    } else {
        let first = repair(root, found[0])->0;
        let last = repair_all(root, found).0;
        lemma_repair_relaxes(root, found[0]);
        lemma_repair_all(first, found.drop_first(), path);
        lemma_relaxed_transitive(last, first, root);
        if tree_plain(root) {
            match found[0] {
                ViolationView::DisallowedImport {
                    file_path,
                    disallowed_import,
                    full_disallowed_import,
                } => {
                    lemma_import_repair_eliminates(
                        root,
                        file_path,
                        disallowed_import,
                        full_disallowed_import,
                        path,
                    );
                },
                ViolationView::NonexistentDirectory { rules_file_path, nonexistent_directory } => {
                    lemma_stale_repair_eliminates(
                        root,
                        rules_file_path,
                        nonexistent_directory,
                        path,
                    );
                },
            }
            if found_at(last, path, found[0]) {
                lemma_relaxed_found_at(last, first, path, found[0]);
            }
        }
    }
}

/// How many distinct violations an exhaustive scan of the target finds;
/// none where the target leads to nothing.
pub open spec fn distinct_violations(root: DirView, target: Seq<Seq<char>>) -> nat {
    match scan_target(root, target, false) {
        Some(found) => found.to_set().len(),
        None => 0,
    }
}

/// A round of repairs that could all be made leaves fewer distinct
/// violations: the first of the repaired violations is gone, and none is
/// new.
pub proof fn lemma_round_shrinks(root: DirView, target: Seq<Seq<char>>)
    requires
        tree_plain(root),
        scan_target(root, target, true) is Some,
        scan_target(root, target, true)->0.len() > 0,
        repair_all(root, scan_target(root, target, true)->0).1,
    ensures
        distinct_violations(repair_all(root, scan_target(root, target, true)->0).0, target)
            < distinct_violations(root, target),
{
    let found = scan_target(root, target, true)->0;
    let new = repair_all(root, found).0;
    let before = scan_target(root, target, false)->0;
    lemma_target_fail_fast(root, target);
    lemma_repair_all(root, found, Seq::empty());
    lemma_relaxed_target(new, root, target);
    let after = scan_target(new, target, false)->0;
    let first = found[0];
    assert(found.contains(first));
    assert(before.contains(first));
    if after.contains(first) {
        lemma_target_found_somewhere(new, target, first);
        let path = choose|path: Seq<Seq<char>>| found_at(new, path, first);
        lemma_repair_all(root, found, path);
    }
    vstd::seq_lib::seq_to_set_is_finite(before);
    vstd::seq_lib::seq_to_set_is_finite(after);
    assert(after.to_set().subset_of(before.to_set().remove(first))) by {
        assert forall|v: ViolationView| after.to_set().contains(v) implies before.to_set().remove(
            first,
        ).contains(v) by {
            assert(after.contains(v));
            assert(before.contains(v));
        }
    }
    vstd::set_lib::lemma_len_subset(after.to_set(), before.to_set().remove(first));
    assert(before.to_set().contains(first));
}

/// Repairs relax the rules of the tree and change nothing else, whether or
/// not all of them could be made.
pub proof fn lemma_repairs_relax(root: DirView, found: Seq<ViolationView>)
    ensures
        relaxed(repair_all(root, found).0, root),
    decreases found.len(),
{
    if found.len() > 0 && repair(root, found[0]) is Some {
        let first = repair(root, found[0])->0;
        lemma_repair_relaxes(root, found[0]);
        lemma_repairs_relax(first, found.drop_first());
        lemma_relaxed_transitive(repair_all(root, found).0, first, root);
    } else {
        lemma_relaxed_reflexive(root);
    }
}

/// The fix engine relaxes the rules of the tree and changes nothing else:
/// every directory and file stays, and no rules document restricts more
/// than it did.
pub proof fn lemma_fix_relaxes(root: DirView, target: Seq<Seq<char>>, rounds: nat)
    ensures
        relaxed(fix_target(root, target, rounds).tree, root),
    decreases MAX_FIX_ROUNDS + 1 - rounds,
{
    lemma_relaxed_reflexive(root);
    match scan_target(root, target, true) {
        None => {},
        Some(found) => {
            if found.len() > 0 {
                let (repaired, complete) = repair_all(root, found);
                lemma_repairs_relax(root, found);
                if complete && rounds < MAX_FIX_ROUNDS {
                    lemma_fix_relaxes(repaired, target, rounds + 1);
                    lemma_relaxed_transitive(
                        fix_target(repaired, target, rounds + 1).tree,
                        repaired,
                        root,
                    );
                }
            }
        },
    }
}

/// A target that is clean stays clean when the rules of the tree are
/// relaxed.
pub proof fn lemma_clean_stays_clean(new: DirView, old: DirView, target: Seq<Seq<char>>)
    requires
        relaxed(new, old),
        scan_target(old, target, false) == Some(Seq::<ViolationView>::empty()),
    ensures
        scan_target(new, target, false) == Some(Seq::<ViolationView>::empty()),
{
    lemma_relaxed_target(new, old, target);
    let found = scan_target(new, target, false)->0;
    if found.len() > 0 {
        assert(found.contains(found[0]));
        assert(scan_target(old, target, false)->0.contains(found[0]));
    }
    assert(found =~= Seq::<ViolationView>::empty());
}

/// Where the fix engine ends all targets with success, an exhaustive scan
/// of each target finds nothing in the tree that it leaves.
pub proof fn lemma_fixed_targets_are_clean(
    root: DirView,
    targets: Seq<Seq<Seq<char>>>,
    rounds: nat,
    k: int,
)
    requires
        fix_targets(root, targets, rounds).result is Ok,
        0 <= k < targets.len(),
    ensures
        scan_target(fix_targets(root, targets, rounds).tree, targets[k], false) == Some(
            Seq::<ViolationView>::empty(),
        ),
    decreases targets.len(),
{
    let first = fix_target(root, targets[0], rounds);
    let rest = targets.drop_first();
    if k == 0 {
        lemma_fixed_target_is_clean(root, targets[0], rounds);
        lemma_fix_all_relaxes(first.tree, rest, first.rounds);
        lemma_clean_stays_clean(
            fix_targets(first.tree, rest, first.rounds).tree,
            first.tree,
            targets[0],
        );
    } else {
        assert(rest[k - 1] == targets[k]);
        lemma_fixed_targets_are_clean(first.tree, rest, first.rounds, k - 1);
    }
}

/// Where the fix engine ends a target with success, an exhaustive scan of
/// the target finds nothing in the tree that it leaves.
pub proof fn lemma_fixed_target_is_clean(root: DirView, target: Seq<Seq<char>>, rounds: nat)
    requires
        fix_target(root, target, rounds).result is Ok,
    ensures
        scan_target(fix_target(root, target, rounds).tree, target, false) == Some(
            Seq::<ViolationView>::empty(),
        ),
    decreases MAX_FIX_ROUNDS + 1 - rounds,
{
    match scan_target(root, target, true) {
        None => {},
        Some(found) => {
            if found.len() == 0 {
                lemma_target_fail_fast(root, target);
                assert(scan_target(root, target, false)->0 =~= Seq::<ViolationView>::empty());
            } else {
                let (repaired, complete) = repair_all(root, found);
                if complete && rounds < MAX_FIX_ROUNDS {
                    lemma_fixed_target_is_clean(repaired, target, rounds + 1);
                }
            }
        },
    }
}

/// The fix engine relaxes the rules of the tree over all targets.
pub proof fn lemma_fix_all_relaxes(root: DirView, targets: Seq<Seq<Seq<char>>>, rounds: nat)
    ensures
        relaxed(fix_targets(root, targets, rounds).tree, root),
    decreases targets.len(),
{
    if targets.len() == 0 {
        lemma_relaxed_reflexive(root);
    } else {
        let first = fix_target(root, targets[0], rounds);
        lemma_fix_relaxes(root, targets[0], rounds);
        if first.result is Ok {
            lemma_fix_all_relaxes(first.tree, targets.drop_first(), first.rounds);
            lemma_relaxed_transitive(
                fix_targets(first.tree, targets.drop_first(), first.rounds).tree,
                first.tree,
                root,
            );
        }
    }
}

/// In a plain tree, a disallowed import that a directory has can be
/// repaired.
pub proof fn lemma_import_is_repairable(root: DirView, path: Seq<Seq<char>>, v: ViolationView)
    requires
        tree_plain(root),
        dir_at(root, path) is Some,
        files_hits(root, path, dir_at(root, path)->0.files, disallowed_at(root, path), false).contains(
            v,
        ),
    ensures
        repair(root, v) is Some,
{
    let dir = dir_at(root, path)->0;
    lemma_file_violation_shape(root, path, v);
    let file_path = v->file_path;
    let prefix = v->disallowed_import;
    let i = choose|i: int|
        0 <= i < dir.files.len() && file_path == child_path(path, (#[trigger] dir.files[i]).name);
    lemma_disallowed_at_members(root, path, prefix);
    let k = choose|k: int| denied_at_level(root, path, k, prefix);
    let above = path.take(k);
    let g = rules_at(root, above)->0;
    let name = choose|name: Seq<char>|
        names_of(g).contains(name) && is_denied_sibling(g, path[k], name) && prefix == child_path(
            above,
            name,
        );
    lemma_plain_dir_at(root, path);
    lemma_dir_at_prefix(root, path, k);
    lemma_plain_dir_at(root, above);
    assert(is_plain_name(dir.files[i].name));
    assert(is_plain_name(name));
    let entry = above.push(name);
    assert forall|j: int| 0 <= j < entry.len() implies is_plain_name(#[trigger] entry[j]) by {
        if j < k {
            assert(entry[j] == path[j]);
        }
    }
    lemma_components_of_join(entry);
    let file = path.push(dir.files[i].name);
    assert forall|j: int| 0 <= j < file.len() implies is_plain_name(#[trigger] file[j]) by {
        if j < path.len() {
            assert(file[j] == path[j]);
        }
    }
    lemma_components_of_join(file);
    assert(components(prefix) == entry);
    assert(components(file_path) == file);
    assert(entry.drop_last() =~= above);
    assert(entry.last() == name);
    assert(file[above.len() as int] == path[k]);
    assert(above =~= file.subrange(0, above.len() as int));
    assert(import_repair(root, file_path, prefix) is Some);
}

/// In a plain tree, a stale reference that a directory has can be
/// repaired.
pub proof fn lemma_stale_is_repairable(root: DirView, path: Seq<Seq<char>>, v: ViolationView)
    requires
        tree_plain(root),
        dir_at(root, path) is Some,
        stale_hits(path, dir_at(root, path)->0).contains(v),
    ensures
        repair(root, v) is Some,
{
    let dir = dir_at(root, path)->0;
    let stale = stale_hits(path, dir);
    let k = choose|k: int| 0 <= k < stale.len() && stale[k] == v;
    assert(v->rules_file_path == child_path(path, RULES_FILE_NAME@));
    lemma_plain_dir_at(root, path);
    lemma_rules_file_name_plain();
    let file = path.push(RULES_FILE_NAME@);
    assert forall|j: int| 0 <= j < file.len() implies is_plain_name(#[trigger] file[j]) by {
        if j < path.len() {
            assert(file[j] == path[j]);
        }
    }
    lemma_components_of_join(file);
    assert(file.drop_last() =~= path);
    assert(stale_repair(root, v->rules_file_path, v->nonexistent_directory) is Some);
}

/// In a plain tree, what a fail-fast scan of a target finds can be
/// repaired.
pub proof fn lemma_round_is_repairable(root: DirView, target: Seq<Seq<char>>)
    requires
        tree_plain(root),
        scan_target(root, target, true) is Some,
    ensures
        repair_all(root, scan_target(root, target, true)->0).1,
{
    let found = scan_target(root, target, true)->0;
    lemma_target_fail_fast(root, target);
    lemma_fail_fast_finds_at_most_one(root, target);
    if found.len() > 0 {
        let v = found[0];
        assert(found.contains(v));
        lemma_target_found_somewhere(root, target, v);
        let path = choose|path: Seq<Seq<char>>| found_at(root, path, v);
        if stale_hits(path, dir_at(root, path)->0).contains(v) {
            lemma_stale_is_repairable(root, path, v);
        } else {
            lemma_import_is_repairable(root, path, v);
        }
        assert(found.drop_first().len() == 0);
        assert(repair_all(repair(root, v)->0, found.drop_first()).1);
    }
}

/// In a tree with plain names, the fix engine brings a target that exists
/// to a clean scan within as many rounds of repair as an exhaustive scan
/// of the target finds distinct violations at the start, if that many
/// rounds are left: each round repairs what a fail-fast scan found, which
/// takes at least one violation away and brings no new one.
pub proof fn lemma_fix_converges(root: DirView, target: Seq<Seq<char>>, rounds: nat)
    requires
        tree_plain(root),
        scan_target(root, target, false) is Some,
        rounds + distinct_violations(root, target) <= MAX_FIX_ROUNDS,
    ensures
        fix_target(root, target, rounds).result is Ok,
        fix_target(root, target, rounds).rounds <= rounds + distinct_violations(root, target),
        scan_target(fix_target(root, target, rounds).tree, target, false) == Some(
            Seq::<ViolationView>::empty(),
        ),
    decreases MAX_FIX_ROUNDS + 1 - rounds,
{
    lemma_target_fail_fast(root, target);
    let found = scan_target(root, target, true)->0;
    if found.len() == 0 {
        assert(scan_target(root, target, false)->0 =~= Seq::<ViolationView>::empty());
    } else {
        let repaired = repair_all(root, found).0;
        lemma_round_is_repairable(root, target);
        lemma_round_shrinks(root, target);
        lemma_repair_all(root, found, Seq::empty());
        lemma_relaxed_target(repaired, root, target);
        lemma_fix_converges(repaired, target, rounds + 1);
    }
}

/// In a tree with plain names, the fix engine makes no more rounds of
/// repair than an exhaustive scan of the target finds distinct violations
/// at the start, and it never meets a violation that it cannot repair. It
/// ends with success, or the target leads to nothing, or there were more
/// distinct violations than rounds left.
pub proof fn lemma_fix_rounds_bounded(root: DirView, target: Seq<Seq<char>>, rounds: nat)
    requires
        tree_plain(root),
    ensures
        fix_target(root, target, rounds).rounds <= rounds + distinct_violations(root, target),
        fix_target(root, target, rounds).result is Ok || (fix_target(root, target, rounds).result
            == Err::<(), FixError>(FixError::MissingTarget) && scan_target(root, target, false)
            is None) || (fix_target(root, target, rounds).result == Err::<(), FixError>(
            FixError::DidNotConverge,
        ) && rounds + distinct_violations(root, target) > MAX_FIX_ROUNDS),
    decreases MAX_FIX_ROUNDS + 1 - rounds,
{
    lemma_target_fail_fast(root, target);
    if scan_target(root, target, true) is Some {
        let found = scan_target(root, target, true)->0;
        if found.len() > 0 {
            let repaired = repair_all(root, found).0;
            lemma_round_is_repairable(root, target);
            lemma_round_shrinks(root, target);
            lemma_repair_all(root, found, Seq::empty());
            lemma_relaxed_target(repaired, root, target);
            if rounds < MAX_FIX_ROUNDS {
                lemma_fix_rounds_bounded(repaired, target, rounds + 1);
            }
        }
    }
}

/// What the exhaustive scans of the targets find, target after target; a
/// target that leads to nothing adds nothing.
pub open spec fn all_found(root: DirView, targets: Seq<Seq<Seq<char>>>) -> Seq<ViolationView>
    decreases targets.len(),
{
    if targets.len() == 0 {
        Seq::empty()
    } else {
        let first = match scan_target(root, targets[0], false) {
            Some(found) => found,
            None => Seq::empty(),
        };
        first + all_found(root, targets.drop_first())
    }
}

/// How many distinct violations the exhaustive scans of the targets find
/// together: a violation that several targets share counts once.
pub open spec fn all_distinct_violations(root: DirView, targets: Seq<Seq<Seq<char>>>) -> nat {
    all_found(root, targets).to_set().len()
}

/// A violation is among those of the targets exactly if the scan of one
/// of them finds it.
pub proof fn lemma_all_found(root: DirView, targets: Seq<Seq<Seq<char>>>, v: ViolationView)
    ensures
        all_found(root, targets).contains(v) <==> exists|k: int|
            0 <= k < targets.len() && scan_target(root, #[trigger] targets[k], false) is Some
                && scan_target(root, targets[k], false)->0.contains(v),
    decreases targets.len(),
{
    if targets.len() > 0 {
        let rest = targets.drop_first();
        let first = match scan_target(root, targets[0], false) {
            Some(found) => found,
            None => Seq::empty(),
        };
        lemma_all_found(root, rest, v);
        crate::text::lemma_concat_contains(first, all_found(root, rest), v);
        if all_found(root, rest).contains(v) {
            let k = choose|k: int|
                0 <= k < rest.len() && scan_target(root, #[trigger] rest[k], false) is Some
                    && scan_target(root, rest[k], false)->0.contains(v);
            assert(targets[k + 1] == rest[k]);
        }
        if exists|k: int|
            0 <= k < targets.len() && scan_target(root, #[trigger] targets[k], false) is Some
                && scan_target(root, targets[k], false)->0.contains(v) {
            let k = choose|k: int|
                0 <= k < targets.len() && scan_target(root, #[trigger] targets[k], false) is Some
                    && scan_target(root, targets[k], false)->0.contains(v);
            if k > 0 {
                assert(rest[k - 1] == targets[k]);
            }
        }
    }
}

/// A round of repairs on one of the targets leaves fewer distinct
/// violations among all of them: the repaired violation is gone from every
/// target, and none is new.
pub proof fn lemma_round_shrinks_all(root: DirView, targets: Seq<Seq<Seq<char>>>, k: int)
    requires
        tree_plain(root),
        0 <= k < targets.len(),
        scan_target(root, targets[k], true) is Some,
        scan_target(root, targets[k], true)->0.len() > 0,
        repair_all(root, scan_target(root, targets[k], true)->0).1,
    ensures
        all_distinct_violations(repair_all(root, scan_target(root, targets[k], true)->0).0, targets)
            < all_distinct_violations(root, targets),
{
    let found = scan_target(root, targets[k], true)->0;
    let new = repair_all(root, found).0;
    let before = all_found(root, targets);
    let after = all_found(new, targets);
    let first = found[0];
    lemma_target_fail_fast(root, targets[k]);
    lemma_repair_all(root, found, Seq::empty());
    assert(found.contains(first));
    lemma_all_found(root, targets, first);
    assert(before.contains(first));
    assert forall|v: ViolationView| after.contains(v) implies before.contains(v) && v != first by {
        lemma_all_found(new, targets, v);
        lemma_all_found(root, targets, v);
        let j = choose|j: int|
            0 <= j < targets.len() && scan_target(new, #[trigger] targets[j], false) is Some
                && scan_target(new, targets[j], false)->0.contains(v);
        lemma_relaxed_target(new, root, targets[j]);
        assert(scan_target(root, targets[j], false)->0.contains(v));
        if v == first {
            lemma_target_found_somewhere(new, targets[j], first);
            let path = choose|path: Seq<Seq<char>>| found_at(new, path, first);
            lemma_repair_all(root, found, path);
        }
    }
    vstd::seq_lib::seq_to_set_is_finite(before);
    vstd::seq_lib::seq_to_set_is_finite(after);
    assert(after.to_set().subset_of(before.to_set().remove(first))) by {
        assert forall|v: ViolationView| after.to_set().contains(v) implies before.to_set().remove(
            first,
        ).contains(v) by {
            assert(after.contains(v));
        }
    }
    vstd::set_lib::lemma_len_subset(after.to_set(), before.to_set().remove(first));
    assert(before.to_set().contains(first));
}

/// In a tree with plain names, the fix engine brings one of several
/// targets to a clean scan, and each round of repair that it makes takes
/// at least one from the distinct violations of all targets together.
pub proof fn lemma_fix_converges_among(
    root: DirView,
    targets: Seq<Seq<Seq<char>>>,
    k: int,
    rounds: nat,
)
    requires
        tree_plain(root),
        0 <= k < targets.len(),
        scan_target(root, targets[k], false) is Some,
        rounds + all_distinct_violations(root, targets) <= MAX_FIX_ROUNDS,
    ensures
        fix_target(root, targets[k], rounds).result is Ok,
        fix_target(root, targets[k], rounds).rounds + all_distinct_violations(
            fix_target(root, targets[k], rounds).tree,
            targets,
        ) <= rounds + all_distinct_violations(root, targets),
    decreases MAX_FIX_ROUNDS + 1 - rounds,
{
    let target = targets[k];
    lemma_target_fail_fast(root, target);
    let found = scan_target(root, target, true)->0;
    if found.len() > 0 {
        let repaired = repair_all(root, found).0;
        lemma_round_is_repairable(root, target);
        lemma_round_shrinks_all(root, targets, k);
        lemma_repair_all(root, found, Seq::empty());
        lemma_relaxed_target(repaired, root, target);
        lemma_fix_converges_among(repaired, targets, k, rounds + 1);
    }
}

/// In a tree with plain names, the fix engine brings all targets that
/// exist to a clean scan within as many rounds of repair as the exhaustive
/// scans of the targets find distinct violations together at the start, if
/// that many rounds are left.
pub proof fn lemma_fix_all_converges(root: DirView, targets: Seq<Seq<Seq<char>>>, rounds: nat)
    requires
        tree_plain(root),
        forall|k: int| 0 <= k < targets.len() ==> scan_target(root, #[trigger] targets[k], false) is Some,
        rounds + all_distinct_violations(root, targets) <= MAX_FIX_ROUNDS,
    ensures
        fix_targets(root, targets, rounds).result is Ok,
        fix_targets(root, targets, rounds).rounds <= rounds + all_distinct_violations(
            root,
            targets,
        ),
        forall|k: int|
            0 <= k < targets.len() ==> scan_target(
                fix_targets(root, targets, rounds).tree,
                #[trigger] targets[k],
                false,
            ) == Some(Seq::<ViolationView>::empty()),
{
    assert(targets.skip(0) =~= targets);
    lemma_fix_rest_converges(root, targets, 0, rounds);
    assert forall|k: int| 0 <= k < targets.len() implies scan_target(
        fix_targets(root, targets, rounds).tree,
        #[trigger] targets[k],
        false,
    ) == Some(Seq::<ViolationView>::empty()) by {
        lemma_fixed_targets_are_clean(root, targets, rounds, k);
    }
}

/// The step of `lemma_fix_all_converges`: the targets from position `from`
/// on, with the violations of all targets counted.
proof fn lemma_fix_rest_converges(
    root: DirView,
    targets: Seq<Seq<Seq<char>>>,
    from: int,
    rounds: nat,
)
    requires
        tree_plain(root),
        0 <= from <= targets.len(),
        forall|k: int| 0 <= k < targets.len() ==> scan_target(root, #[trigger] targets[k], false) is Some,
        rounds + all_distinct_violations(root, targets) <= MAX_FIX_ROUNDS,
    ensures
        fix_targets(root, targets.skip(from), rounds).result is Ok,
        fix_targets(root, targets.skip(from), rounds).rounds <= rounds + all_distinct_violations(
            root,
            targets,
        ),
    decreases targets.len() - from,
{
    if from < targets.len() {
        let rest = targets.skip(from);
        assert(rest[0] == targets[from]);
        assert(rest.drop_first() =~= targets.skip(from + 1));
        lemma_fix_converges_among(root, targets, from, rounds);
        lemma_fix_keeps_plain(root, targets[from], rounds);
        lemma_fix_relaxes(root, targets[from], rounds);
        let first = fix_target(root, targets[from], rounds);
        assert forall|k: int| 0 <= k < targets.len() implies scan_target(
            first.tree,
            #[trigger] targets[k],
            false,
        ) is Some by {
            lemma_relaxed_target(first.tree, root, targets[k]);
        }
        lemma_fix_rest_converges(first.tree, targets, from + 1, first.rounds);
    }
}

/// The fix engine leaves a plain tree plain.
pub proof fn lemma_fix_keeps_plain(root: DirView, target: Seq<Seq<char>>, rounds: nat)
    requires
        tree_plain(root),
    ensures
        tree_plain(fix_target(root, target, rounds).tree),
    decreases MAX_FIX_ROUNDS + 1 - rounds,
{
    match scan_target(root, target, true) {
        None => {},
        Some(found) => {
            if found.len() > 0 {
                let (repaired, complete) = repair_all(root, found);
                lemma_repairs_keep_plain(root, found);
                if complete && rounds < MAX_FIX_ROUNDS {
                    lemma_fix_keeps_plain(repaired, target, rounds + 1);
                }
            }
        },
    }
}

/// Repairs leave a plain tree plain, whether or not all of them could be
/// made.
pub proof fn lemma_repairs_keep_plain(root: DirView, found: Seq<ViolationView>)
    requires
        tree_plain(root),
    ensures
        tree_plain(repair_all(root, found).0),
    decreases found.len(),
{
    if found.len() > 0 && repair(root, found[0]) is Some {
        lemma_repair_relaxes(root, found[0]);
        lemma_repairs_keep_plain(repair(root, found[0])->0, found.drop_first());
    }
}

/// Where the only violation of a target is one stale reference, the fix
/// engine takes exactly that reference away: it ends with success after
/// one round of repair, and the tree that it leaves is the tree as it was
/// but for the rules document that held the name, which is as it was but
/// for that name.
pub proof fn lemma_fix_removes_one_stale_reference(
    root: DirView,
    target: Seq<Seq<char>>,
    rounds: nat,
    path: Seq<Seq<char>>,
    name: Seq<char>,
)
    requires
        tree_plain(root),
        rounds < MAX_FIX_ROUNDS,
        dir_at(root, path) is Some,
        dir_at(root, path)->0.rules is Some,
        scan_target(root, target, false) is Some,
        scan_target(root, target, false)->0.len() > 0,
        forall|v: ViolationView|
            scan_target(root, target, false)->0.contains(v) ==> v
                == (ViolationView::NonexistentDirectory {
                rules_file_path: child_path(path, RULES_FILE_NAME@),
                nonexistent_directory: name,
            }),
    ensures
        fix_target(root, target, rounds).result is Ok,
        fix_target(root, target, rounds).rounds == rounds + 1,
        fix_target(root, target, rounds).tree == with_rules_at(
            root,
            path,
            Some(without_name(dir_at(root, path)->0.rules->0, name)),
        ),
{
    let v = ViolationView::NonexistentDirectory {
        rules_file_path: child_path(path, RULES_FILE_NAME@),
        nonexistent_directory: name,
    };
    let all = scan_target(root, target, false)->0;
    lemma_target_fail_fast(root, target);
    lemma_fail_fast_finds_at_most_one(root, target);
    let found = scan_target(root, target, true)->0;
    assert(found.contains(found[0]));
    assert(found =~= seq![v]);
    // The repair goes to the rules document at `path`.
    lemma_plain_dir_at(root, path);
    lemma_rules_file_name_plain();
    let file = path.push(RULES_FILE_NAME@);
    assert forall|j: int| 0 <= j < file.len() implies is_plain_name(#[trigger] file[j]) by {
        if j < path.len() {
            assert(file[j] == path[j]);
        }
    }
    lemma_components_of_join(file);
    assert(file.drop_last() =~= path);
    let new = with_rules_at(root, path, Some(without_name(dir_at(root, path)->0.rules->0, name)));
    assert(repair(root, v) == Some(new));
    assert(found.drop_first().len() == 0);
    assert(repair_all(new, found.drop_first()) == (new, true));
    assert(repair_all(root, found) == (new, true));
    // Nothing is left to find.
    lemma_repair_all(root, found, Seq::empty());
    lemma_relaxed_target(new, root, target);
    let after = scan_target(new, target, false)->0;
    if after.len() > 0 {
        assert(after.contains(after[0]));
        assert(all.contains(after[0]));
        lemma_target_found_somewhere(new, target, v);
        let at = choose|at: Seq<Seq<char>>| found_at(new, at, v);
        lemma_repair_all(root, found, at);
    }
    lemma_target_fail_fast(new, target);
    let fast = scan_target(new, target, true)->0;
    if fast.len() > 0 {
        assert(fast.contains(fast[0]));
    }
    assert(fix_target(new, target, rounds + 1).result is Ok);
    assert(fix_target(new, target, rounds + 1).tree == new);
}

} // verus!
