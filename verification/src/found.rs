//! What a scan holds: which violations are among those that an exhaustive
//! scan finds, and how a fail-fast scan stands to an exhaustive one.
use vstd::prelude::*;
use crate::RULES_FILE_NAME;
use crate::disallowed::{child_disallowed, child_path};
use crate::normalize::canonical_import;
use crate::paths::path_begins_with;
use crate::rules::{is_reference, lemma_stale_names, names_of, stale_names};
use crate::text::lemma_concat_contains;
use crate::tree::{child_position, dir_at, DirView, FileView};
use crate::violations::ViolationView;
use crate::visit::{
    child_names, disallowed_at, file_hits, file_position, files_hits, import_hit, import_hits,
    is_source_file, scan_below, scan_children, scan_dir, scan_target, stale_hits,
};

verus! {

/// An exhaustive test of one import finds exactly one violation for each
/// disallowed prefix that the import begins with.
pub proof fn lemma_import_hits(
    file_path: Seq<char>,
    target: Seq<char>,
    raw: Seq<char>,
    disallowed: Seq<Seq<char>>,
    v: ViolationView,
)
    ensures
        import_hits(file_path, target, raw, disallowed, false).contains(v) <==> exists|k: int|
            0 <= k < disallowed.len() && path_begins_with(target, #[trigger] disallowed[k]) && v
                == import_hit(file_path, disallowed[k], raw),
    decreases disallowed.len(),
{
    let all = import_hits(file_path, target, raw, disallowed, false);
    if disallowed.len() > 0 {
        let rest = disallowed.drop_first();
        let later = import_hits(file_path, target, raw, rest, false);
        lemma_import_hits(file_path, target, raw, rest, v);
        let first = if path_begins_with(target, disallowed[0]) {
            seq![import_hit(file_path, disallowed[0], raw)]
        } else {
            Seq::<ViolationView>::empty()
        };
        assert(all =~= first + later);
        lemma_concat_contains(first, later, v);
        if first.contains(v) {
            assert(first[0] == v);
        }
        if later.contains(v) {
            let k = choose|k: int|
                0 <= k < rest.len() && path_begins_with(target, #[trigger] rest[k]) && v
                    == import_hit(file_path, rest[k], raw);
            assert(disallowed[k + 1] == rest[k]);
        }
        if exists|k: int|
            0 <= k < disallowed.len() && path_begins_with(target, #[trigger] disallowed[k]) && v
                == import_hit(file_path, disallowed[k], raw) {
            let k = choose|k: int|
                0 <= k < disallowed.len() && path_begins_with(target, #[trigger] disallowed[k])
                    && v == import_hit(file_path, disallowed[k], raw);
            if k == 0 {
                assert(first[0] == v);
            } else {
                assert(rest[k - 1] == disallowed[k]);
            }
        }
    }
}

/// An exhaustive test of one file finds exactly what the tests of its
/// imports find.
pub proof fn lemma_file_hits(
    root: DirView,
    current: Seq<Seq<char>>,
    file_path: Seq<char>,
    imports: Seq<Seq<char>>,
    disallowed: Seq<Seq<char>>,
    v: ViolationView,
)
    ensures
        file_hits(root, current, file_path, imports, disallowed, false).contains(v) <==> exists|
            i: int,
        |
            0 <= i < imports.len() && import_hits(
                file_path,
                canonical_import(#[trigger] imports[i], root, current),
                imports[i],
                disallowed,
                false,
            ).contains(v),
    decreases imports.len(),
{
    if imports.len() > 0 {
        let rest = imports.drop_first();
        let first = import_hits(
            file_path,
            canonical_import(imports[0], root, current),
            imports[0],
            disallowed,
            false,
        );
        let later = file_hits(root, current, file_path, rest, disallowed, false);
        lemma_file_hits(root, current, file_path, rest, disallowed, v);
        lemma_concat_contains(first, later, v);
        if later.contains(v) {
            let i = choose|i: int|
                0 <= i < rest.len() && import_hits(
                    file_path,
                    canonical_import(#[trigger] rest[i], root, current),
                    rest[i],
                    disallowed,
                    false,
                ).contains(v);
            assert(imports[i + 1] == rest[i]);
        }
        if exists|i: int|
            0 <= i < imports.len() && import_hits(
                file_path,
                canonical_import(#[trigger] imports[i], root, current),
                imports[i],
                disallowed,
                false,
            ).contains(v) {
            let i = choose|i: int|
                0 <= i < imports.len() && import_hits(
                    file_path,
                    canonical_import(#[trigger] imports[i], root, current),
                    imports[i],
                    disallowed,
                    false,
                ).contains(v);
            if i > 0 {
                assert(rest[i - 1] == imports[i]);
            }
        }
    }
}

/// What an exhaustive test of the file `file` of the directory `current`
/// finds; nothing if it is no source file.
pub open spec fn one_file_hits(
    root: DirView,
    current: Seq<Seq<char>>,
    file: FileView,
    disallowed: Seq<Seq<char>>,
) -> Seq<ViolationView> {
    if is_source_file(file.name) {
        file_hits(root, current, child_path(current, file.name), file.imports, disallowed, false)
    } else {
        Seq::empty()
    }
}

/// An exhaustive test of the files of a directory finds exactly what the
/// tests of its source files find.
pub proof fn lemma_files_hits(
    root: DirView,
    current: Seq<Seq<char>>,
    files: Seq<FileView>,
    disallowed: Seq<Seq<char>>,
    v: ViolationView,
)
    ensures
        files_hits(root, current, files, disallowed, false).contains(v) <==> exists|i: int|
            0 <= i < files.len() && one_file_hits(
                root,
                current,
                #[trigger] files[i],
                disallowed,
            ).contains(v),
    decreases files.len(),
{
    if files.len() > 0 {
        let rest = files.drop_first();
        let first = one_file_hits(root, current, files[0], disallowed);
        let later = files_hits(root, current, rest, disallowed, false);
        lemma_files_hits(root, current, rest, disallowed, v);
        lemma_concat_contains(first, later, v);
        if later.contains(v) {
            let i = choose|i: int|
                0 <= i < rest.len() && one_file_hits(
                    root,
                    current,
                    #[trigger] rest[i],
                    disallowed,
                ).contains(v);
            assert(files[i + 1] == rest[i]);
        }
        if exists|i: int|
            0 <= i < files.len() && one_file_hits(
                root,
                current,
                #[trigger] files[i],
                disallowed,
            ).contains(v) {
            let i = choose|i: int|
                0 <= i < files.len() && one_file_hits(
                    root,
                    current,
                    #[trigger] files[i],
                    disallowed,
                ).contains(v);
            if i > 0 {
                assert(rest[i - 1] == files[i]);
            }
        }
    }
}

/// What an exhaustive scan finds in the child directory that the name of
/// the child at position `i` of `dir` leads to.
pub open spec fn child_scan(
    root: DirView,
    disallowed: Seq<Seq<char>>,
    current: Seq<Seq<char>>,
    dir: DirView,
    i: int,
) -> Seq<ViolationView> {
    let name = dir.directories[i].name;
    let at = child_position(dir.directories, name);
    if 0 <= at < dir.directories.len() {
        scan_dir(
            root,
            child_disallowed(current, disallowed, dir.rules, name),
            current.push(name),
            dir.directories[at],
            false,
            false,
        )
    } else {
        Seq::empty()
    }
}

/// The exhaustive scans of the child directories find exactly what the
/// scan of each child finds.
pub proof fn lemma_scan_children(
    root: DirView,
    disallowed: Seq<Seq<char>>,
    current: Seq<Seq<char>>,
    dir: DirView,
    from: int,
    v: ViolationView,
)
    requires
        0 <= from,
    ensures
        scan_children(root, disallowed, current, dir, from, false).contains(v) <==> exists|i: int|
            from <= i < dir.directories.len() && (#[trigger] child_scan(
                root,
                disallowed,
                current,
                dir,
                i,
            )).contains(v),
    decreases dir.directories.len() - from,
{
    if from < dir.directories.len() {
        let first = child_scan(root, disallowed, current, dir, from);
        let later = scan_children(root, disallowed, current, dir, from + 1, false);
        lemma_scan_children(root, disallowed, current, dir, from + 1, v);
        lemma_concat_contains(first, later, v);
    }
}

/// An exhaustive scan of a directory finds exactly the violations of its
/// files, the stale references of its rules, and what the scans of its
/// child directories find.
pub proof fn lemma_scan_dir(
    root: DirView,
    disallowed: Seq<Seq<char>>,
    current: Seq<Seq<char>>,
    dir: DirView,
    found_before: bool,
    v: ViolationView,
)
    ensures
        scan_dir(root, disallowed, current, dir, false, found_before).contains(v) <==> (files_hits(
            root,
            current,
            dir.files,
            disallowed,
            false,
        ).contains(v) || stale_hits(current, dir).contains(v) || scan_children(
            root,
            disallowed,
            current,
            dir,
            0,
            false,
        ).contains(v)),
{
    let found = files_hits(root, current, dir.files, disallowed, false);
    let stale = stale_hits(current, dir);
    let below = scan_children(root, disallowed, current, dir, 0, false);
    lemma_concat_contains(stale, below, v);
    lemma_concat_contains(found, stale + below, v);
}

/// A rules document that names a child directory which does not exist
/// always yields a violation: the exhaustive scan of its directory reports
/// the stale reference.
pub proof fn lemma_stale_reference_is_reported(
    root: DirView,
    disallowed: Seq<Seq<char>>,
    current: Seq<Seq<char>>,
    dir: DirView,
    found_before: bool,
    name: Seq<char>,
)
    requires
        dir.rules is Some,
        names_of(dir.rules->0).contains(name),
        is_reference(dir.rules->0, name),
        !child_names(dir).contains(name),
    ensures
        scan_dir(root, disallowed, current, dir, false, found_before).contains(
            ViolationView::NonexistentDirectory {
                rules_file_path: child_path(current, RULES_FILE_NAME@),
                nonexistent_directory: name,
            },
        ),
{
    let v = ViolationView::NonexistentDirectory {
        rules_file_path: child_path(current, RULES_FILE_NAME@),
        nonexistent_directory: name,
    };
    let names = stale_names(dir.rules->0, child_names(dir));
    lemma_stale_names(dir.rules->0, child_names(dir), name);
    let k = choose|k: int| 0 <= k < names.len() && names[k] == name;
    assert(stale_hits(current, dir)[k] == v);
    lemma_scan_dir(root, disallowed, current, dir, found_before, v);
}

/// A fail-fast test of one import finds only what an exhaustive test
/// finds, and it finds something if the exhaustive test does.
pub proof fn lemma_import_fail_fast(
    file_path: Seq<char>,
    target: Seq<char>,
    raw: Seq<char>,
    disallowed: Seq<Seq<char>>,
    v: ViolationView,
)
    ensures
        import_hits(file_path, target, raw, disallowed, true).contains(v) ==> import_hits(
            file_path,
            target,
            raw,
            disallowed,
            false,
        ).contains(v),
        import_hits(file_path, target, raw, disallowed, false).len() > 0 ==> import_hits(
            file_path,
            target,
            raw,
            disallowed,
            true,
        ).len() > 0,
    decreases disallowed.len(),
{
    if disallowed.len() > 0 {
        let rest = disallowed.drop_first();
        lemma_import_fail_fast(file_path, target, raw, rest, v);
        if path_begins_with(target, disallowed[0]) {
            let hit = import_hit(file_path, disallowed[0], raw);
            let fast = import_hits(file_path, target, raw, disallowed, true);
            let full = import_hits(file_path, target, raw, disallowed, false);
            if fast.contains(v) {
                assert(fast[0] == v);
                assert(full[0] == v);
            }
        }
    }
}

/// A fail-fast test of one file finds only what an exhaustive test finds,
/// and it finds something if the exhaustive test does.
pub proof fn lemma_file_fail_fast(
    root: DirView,
    current: Seq<Seq<char>>,
    file_path: Seq<char>,
    imports: Seq<Seq<char>>,
    disallowed: Seq<Seq<char>>,
    v: ViolationView,
)
    ensures
        file_hits(root, current, file_path, imports, disallowed, true).contains(v) ==> file_hits(
            root,
            current,
            file_path,
            imports,
            disallowed,
            false,
        ).contains(v),
        file_hits(root, current, file_path, imports, disallowed, false).len() > 0 ==> file_hits(
            root,
            current,
            file_path,
            imports,
            disallowed,
            true,
        ).len() > 0,
    decreases imports.len(),
{
    if imports.len() > 0 {
        let rest = imports.drop_first();
        let target = canonical_import(imports[0], root, current);
        lemma_file_fail_fast(root, current, file_path, rest, disallowed, v);
        lemma_import_fail_fast(file_path, target, imports[0], disallowed, v);
        let fast_first = import_hits(file_path, target, imports[0], disallowed, true);
        let full_first = import_hits(file_path, target, imports[0], disallowed, false);
        let fast_later = file_hits(root, current, file_path, rest, disallowed, true);
        let full_later = file_hits(root, current, file_path, rest, disallowed, false);
        lemma_concat_contains(full_first, full_later, v);
        lemma_concat_contains(fast_first, fast_later, v);
    }
}

/// A fail-fast test of the files of a directory finds only what an
/// exhaustive test finds, and it finds something if the exhaustive test
/// does.
pub proof fn lemma_files_fail_fast(
    root: DirView,
    current: Seq<Seq<char>>,
    files: Seq<FileView>,
    disallowed: Seq<Seq<char>>,
    v: ViolationView,
)
    ensures
        files_hits(root, current, files, disallowed, true).contains(v) ==> files_hits(
            root,
            current,
            files,
            disallowed,
            false,
        ).contains(v),
        files_hits(root, current, files, disallowed, false).len() > 0 ==> files_hits(
            root,
            current,
            files,
            disallowed,
            true,
        ).len() > 0,
    decreases files.len(),
{
    if files.len() > 0 {
        let rest = files.drop_first();
        lemma_files_fail_fast(root, current, rest, disallowed, v);
        let path = child_path(current, files[0].name);
        let source = is_source_file(files[0].name);
        if source {
            lemma_file_fail_fast(root, current, path, files[0].imports, disallowed, v);
        }
        let fast_first = if source {
            file_hits(root, current, path, files[0].imports, disallowed, true)
        } else {
            Seq::<ViolationView>::empty()
        };
        let full_first = if source {
            file_hits(root, current, path, files[0].imports, disallowed, false)
        } else {
            Seq::<ViolationView>::empty()
        };
        let fast_later = files_hits(root, current, rest, disallowed, true);
        let full_later = files_hits(root, current, rest, disallowed, false);
        lemma_concat_contains(full_first, full_later, v);
        lemma_concat_contains(fast_first, fast_later, v);
    }
}

/// A fail-fast scan of a directory finds only what an exhaustive scan
/// finds, and it finds something if the exhaustive scan does.
pub proof fn lemma_scan_fail_fast(
    root: DirView,
    disallowed: Seq<Seq<char>>,
    current: Seq<Seq<char>>,
    dir: DirView,
    v: ViolationView,
)
    ensures
        scan_dir(root, disallowed, current, dir, true, false).contains(v) ==> scan_dir(
            root,
            disallowed,
            current,
            dir,
            false,
            false,
        ).contains(v),
        scan_dir(root, disallowed, current, dir, false, false).len() > 0 ==> scan_dir(
            root,
            disallowed,
            current,
            dir,
            true,
            false,
        ).len() > 0,
    decreases dir, 1nat, 0nat,
{
    lemma_files_fail_fast(root, current, dir.files, disallowed, v);
    lemma_children_fail_fast(root, disallowed, current, dir, 0, v);
    let fast_found = files_hits(root, current, dir.files, disallowed, true);
    let full_found = files_hits(root, current, dir.files, disallowed, false);
    let stale = stale_hits(current, dir);
    let fast_children = scan_children(root, disallowed, current, dir, 0, true);
    let full_children = scan_children(root, disallowed, current, dir, 0, false);
    lemma_concat_contains(stale, full_children, v);
    lemma_concat_contains(stale, fast_children, v);
    lemma_concat_contains(full_found, stale + full_children, v);
    lemma_concat_contains(
        fast_found,
        scan_below(root, disallowed, current, dir, true, false),
        v,
    );
}

/// The fail-fast scans of the child directories find only what the
/// exhaustive scans find, and they find something if the exhaustive scans
/// do.
pub proof fn lemma_children_fail_fast(
    root: DirView,
    disallowed: Seq<Seq<char>>,
    current: Seq<Seq<char>>,
    dir: DirView,
    from: int,
    v: ViolationView,
)
    requires
        0 <= from,
    ensures
        scan_children(root, disallowed, current, dir, from, true).contains(v) ==> scan_children(
            root,
            disallowed,
            current,
            dir,
            from,
            false,
        ).contains(v),
        scan_children(root, disallowed, current, dir, from, false).len() > 0 ==> scan_children(
            root,
            disallowed,
            current,
            dir,
            from,
            true,
        ).len() > 0,
    decreases dir, 0nat, dir.directories.len() - from,
{
    if from < dir.directories.len() {
        let name = dir.directories[from].name;
        let at = child_position(dir.directories, name);
        lemma_children_fail_fast(root, disallowed, current, dir, from + 1, v);
        let below = child_disallowed(current, disallowed, dir.rules, name);
        if 0 <= at < dir.directories.len() {
            lemma_scan_fail_fast(root, below, current.push(name), dir.directories[at], v);
        }
        let fast_first = if 0 <= at < dir.directories.len() {
            scan_dir(root, below, current.push(name), dir.directories[at], true, false)
        } else {
            Seq::<ViolationView>::empty()
        };
        let full_first = if 0 <= at < dir.directories.len() {
            scan_dir(root, below, current.push(name), dir.directories[at], false, false)
        } else {
            Seq::<ViolationView>::empty()
        };
        let fast_later = scan_children(root, disallowed, current, dir, from + 1, true);
        let full_later = scan_children(root, disallowed, current, dir, from + 1, false);
        lemma_concat_contains(full_first, full_later, v);
        lemma_concat_contains(fast_first, fast_later, v);
    }
}

/// A fail-fast scan of a target finds only what an exhaustive scan finds,
/// and it finds something if the exhaustive scan does: a fail-fast scan
/// that finds nothing shows that there is no violation.
pub proof fn lemma_target_fail_fast(root: DirView, target: Seq<Seq<char>>)
    ensures
        scan_target(root, target, true) is Some <==> scan_target(root, target, false) is Some,
        scan_target(root, target, true) is Some ==> {
            &&& forall|v: ViolationView|
                scan_target(root, target, true)->0.contains(v) ==> scan_target(
                    root,
                    target,
                    false,
                )->0.contains(v)
            &&& scan_target(root, target, false)->0.len() > 0 ==> scan_target(
                root,
                target,
                true,
            )->0.len() > 0
        },
{
    if scan_target(root, target, true) is Some {
        let fast = scan_target(root, target, true)->0;
        let full = scan_target(root, target, false)->0;
        if dir_at(root, target) is Some {
            let dir = dir_at(root, target)->0;
            let disallowed = disallowed_at(root, target);
            assert forall|v: ViolationView| fast.contains(v) implies full.contains(v) by {
                lemma_scan_fail_fast(root, disallowed, target, dir, v);
            }
            if full.len() > 0 {
                lemma_scan_fail_fast(root, disallowed, target, dir, full[0]);
            }
        } else {
            let parent = target.drop_last();
            let dir = dir_at(root, parent)->0;
            let at = file_position(dir.files, target.last());
            let disallowed = disallowed_at(root, parent);
            assert forall|v: ViolationView| fast.contains(v) implies full.contains(v) by {
                lemma_files_fail_fast(root, parent, seq![dir.files[at]], disallowed, v);
            }
            if full.len() > 0 {
                lemma_files_fail_fast(root, parent, seq![dir.files[at]], disallowed, full[0]);
            }
        }
    }
}

/// A fail-fast test of one import finds at most one violation.
pub proof fn lemma_import_fail_fast_one(
    file_path: Seq<char>,
    target: Seq<char>,
    raw: Seq<char>,
    disallowed: Seq<Seq<char>>,
)
    ensures
        import_hits(file_path, target, raw, disallowed, true).len() <= 1,
    decreases disallowed.len(),
{
    if disallowed.len() > 0 {
        lemma_import_fail_fast_one(file_path, target, raw, disallowed.drop_first());
    }
}

/// A fail-fast test of one file finds at most one violation.
pub proof fn lemma_file_fail_fast_one(
    root: DirView,
    current: Seq<Seq<char>>,
    file_path: Seq<char>,
    imports: Seq<Seq<char>>,
    disallowed: Seq<Seq<char>>,
)
    ensures
        file_hits(root, current, file_path, imports, disallowed, true).len() <= 1,
    decreases imports.len(),
{
    if imports.len() > 0 {
        lemma_import_fail_fast_one(
            file_path,
            canonical_import(imports[0], root, current),
            imports[0],
            disallowed,
        );
        lemma_file_fail_fast_one(root, current, file_path, imports.drop_first(), disallowed);
    }
}

/// A fail-fast test of the files of a directory finds at most one
/// violation.
pub proof fn lemma_files_fail_fast_one(
    root: DirView,
    current: Seq<Seq<char>>,
    files: Seq<FileView>,
    disallowed: Seq<Seq<char>>,
)
    ensures
        files_hits(root, current, files, disallowed, true).len() <= 1,
    decreases files.len(),
{
    if files.len() > 0 {
        if is_source_file(files[0].name) {
            lemma_file_fail_fast_one(
                root,
                current,
                child_path(current, files[0].name),
                files[0].imports,
                disallowed,
            );
        }
        lemma_files_fail_fast_one(root, current, files.drop_first(), disallowed);
    }
}

/// A fail-fast scan of a directory finds at most one violation.
pub proof fn lemma_scan_fail_fast_one(
    root: DirView,
    disallowed: Seq<Seq<char>>,
    current: Seq<Seq<char>>,
    dir: DirView,
    found_before: bool,
)
    ensures
        scan_dir(root, disallowed, current, dir, true, found_before).len() <= 1,
        scan_below(root, disallowed, current, dir, true, found_before).len() <= 1,
    decreases dir, 1nat, 0nat,
{
    lemma_files_fail_fast_one(root, current, dir.files, disallowed);
    lemma_children_fail_fast_one(root, disallowed, current, dir, 0);
}

/// The fail-fast scans of the child directories find at most one
/// violation.
pub proof fn lemma_children_fail_fast_one(
    root: DirView,
    disallowed: Seq<Seq<char>>,
    current: Seq<Seq<char>>,
    dir: DirView,
    from: int,
)
    requires
        0 <= from,
    ensures
        scan_children(root, disallowed, current, dir, from, true).len() <= 1,
    decreases dir, 0nat, dir.directories.len() - from,
{
    if from < dir.directories.len() {
        let name = dir.directories[from].name;
        let at = child_position(dir.directories, name);
        if 0 <= at < dir.directories.len() {
            lemma_scan_fail_fast_one(
                root,
                child_disallowed(current, disallowed, dir.rules, name),
                current.push(name),
                dir.directories[at],
                false,
            );
        }
        lemma_children_fail_fast_one(root, disallowed, current, dir, from + 1);
    }
}

/// A fail-fast scan of a target stops at the first violation: it finds at
/// most one.
pub proof fn lemma_fail_fast_finds_at_most_one(root: DirView, target: Seq<Seq<char>>)
    requires
        scan_target(root, target, true) is Some,
    ensures
        scan_target(root, target, true)->0.len() <= 1,
{
    if dir_at(root, target) is Some {
        lemma_scan_fail_fast_one(
            root,
            disallowed_at(root, target),
            target,
            dir_at(root, target)->0,
            false,
        );
    } else {
        let parent = target.drop_last();
        let dir = dir_at(root, parent)->0;
        let at = file_position(dir.files, target.last());
        lemma_files_fail_fast_one(root, parent, seq![dir.files[at]], disallowed_at(root, parent));
    }
}

} // verus!
