//! The tree scanner: a depth-first walk that resolves the rules of each
//! directory and tests every import of every source file against the
//! prefixes that its directory may not import.
use vstd::prelude::*;
use crate::RULES_FILE_NAME;
use crate::allows::Graph;
use crate::disallowed::{child_disallowed, child_path, get_child_disallowed_imports, path_of_child};
use crate::normalize::{canonical_import, canonicalize_import_path};
use crate::paths::{path_begins_with, path_starts_with};
use crate::rules::{stale_names, RulesDocument};
use crate::text::{clone_names, ends_with};
use crate::tree::{
    child_named, child_position, dir_at, dir_view, height, lemma_child_height,
    lemma_child_position, lemma_dir_at_push, lemma_dirs_view, lookup, Directory, DirView,
    FileView, SourceFile,
};
use crate::violations::{
    DisallowedImportViolation, ReferenceToNonexistentDirectory, Violation, ViolationView,
};

verus! {

/// Why a scan could not be made.
#[derive(Clone, Copy, Debug, PartialEq, Eq, Structural)]
pub enum ScanError {
    /// The tree has nothing at the path that was to be scanned.
    MissingDirectory,
}

/// The ending that marks a source file.
pub open spec fn source_extension() -> Seq<char> {
    seq!['.', 't', 's']
}

/// Whether a file of this name is a source file.
pub open spec fn is_source_file(name: Seq<char>) -> bool {
    source_extension().is_suffix_of(name)
}

/// The violation of the file `file_path` importing `raw`, which falls
/// under the disallowed prefix `prefix`.
pub open spec fn import_hit(file_path: Seq<char>, prefix: Seq<char>, raw: Seq<char>) -> ViolationView {
    ViolationView::DisallowedImport {
        file_path,
        disallowed_import: prefix,
        full_disallowed_import: raw,
    }
}

/// The violations of one import: one for each prefix of `disallowed` that
/// the normalized import `target` begins with, in the order of
/// `disallowed`; in fail-fast mode only the first of them.
pub open spec fn import_hits(
    file_path: Seq<char>,
    target: Seq<char>,
    raw: Seq<char>,
    disallowed: Seq<Seq<char>>,
    fail_fast: bool,
) -> Seq<ViolationView>
    decreases disallowed.len(),
{
    if disallowed.len() == 0 {
        Seq::empty()
    } else if path_begins_with(target, disallowed[0]) {
        if fail_fast {
            seq![import_hit(file_path, disallowed[0], raw)]
        } else {
            seq![import_hit(file_path, disallowed[0], raw)] + import_hits(
                file_path,
                target,
                raw,
                disallowed.drop_first(),
                fail_fast,
            )
        }
    } else {
        import_hits(file_path, target, raw, disallowed.drop_first(), fail_fast)
    }
}

/// The violations of the imports `imports` of one file of the directory
/// `current`, import after import; in fail-fast mode only the first.
pub open spec fn file_hits(
    root: DirView,
    current: Seq<Seq<char>>,
    file_path: Seq<char>,
    imports: Seq<Seq<char>>,
    disallowed: Seq<Seq<char>>,
    fail_fast: bool,
) -> Seq<ViolationView>
    decreases imports.len(),
{
    if imports.len() == 0 {
        Seq::empty()
    } else {
        let first = import_hits(
            file_path,
            canonical_import(imports[0], root, current),
            imports[0],
            disallowed,
            fail_fast,
        );
        if fail_fast && first.len() > 0 {
            first
        } else {
            first + file_hits(
                root,
                current,
                file_path,
                imports.drop_first(),
                disallowed,
                fail_fast,
            )
        }
    }
}

/// The violations of the source files among `files`, which stand in the
/// directory `current`, file after file; in fail-fast mode only the first.
/// Files that are no source files are passed over.
pub open spec fn files_hits(
    root: DirView,
    current: Seq<Seq<char>>,
    files: Seq<FileView>,
    disallowed: Seq<Seq<char>>,
    fail_fast: bool,
) -> Seq<ViolationView>
    decreases files.len(),
{
    if files.len() == 0 {
        Seq::empty()
    } else {
        let first = if is_source_file(files[0].name) {
            file_hits(
                root,
                current,
                child_path(current, files[0].name),
                files[0].imports,
                disallowed,
                fail_fast,
            )
        } else {
            Seq::empty()
        };
        if fail_fast && first.len() > 0 {
            first
        } else {
            first + files_hits(root, current, files.drop_first(), disallowed, fail_fast)
        }
    }
}

/// The names of the child directories of `dir`, in order.
pub open spec fn child_names(dir: DirView) -> Seq<Seq<char>> {
    Seq::new(dir.directories.len(), |i: int| dir.directories[i].name)
}

/// The violations for the stale references of the rules document of `dir`,
/// which stands at the path `current`: one for each name that the document
/// refers to and no child directory of `dir` has.
pub open spec fn stale_hits(current: Seq<Seq<char>>, dir: DirView) -> Seq<ViolationView> {
    match dir.rules {
        None => Seq::empty(),
        Some(doc) => {
            let names = stale_names(doc, child_names(dir));
            Seq::new(
                names.len(),
                |i: int|
                    ViolationView::NonexistentDirectory {
                        rules_file_path: child_path(current, RULES_FILE_NAME@),
                        nonexistent_directory: names[i],
                    },
            )
        },
    }
}

/// The violations that a scan of the directory `dir` finds. `dir` stands at
/// the path `current` in the tree `root` and may not import the prefixes
/// `disallowed`.
///
/// First come the violations of the files of `dir`, then the stale
/// references of its rules document, then what the scans of its child
/// directories find, each child with the prefixes that the rules of `dir`
/// give it. In fail-fast mode the scan ends with the first violation that
/// it finds; `found_before` says that violations were known before the
/// scan began, which in fail-fast mode ends it after the files.
pub open spec fn scan_dir(
    root: DirView,
    disallowed: Seq<Seq<char>>,
    current: Seq<Seq<char>>,
    dir: DirView,
    fail_fast: bool,
    found_before: bool,
) -> Seq<ViolationView>
    decreases dir, 2nat, 0nat,
{
    let found = files_hits(root, current, dir.files, disallowed, fail_fast);
    if fail_fast && (found_before || found.len() > 0) {
        found
    } else {
        found + scan_below(root, disallowed, current, dir, fail_fast, found_before)
    }
}

/// The first of `found`, if there is any.
pub open spec fn first_of(found: Seq<ViolationView>) -> Seq<ViolationView> {
    if found.len() > 0 {
        seq![found[0]]
    } else {
        Seq::empty()
    }
}

/// The stale references of the rules document of `dir` that a scan
/// reports: all of them, in fail-fast mode the first only.
pub open spec fn reported_stale(current: Seq<Seq<char>>, dir: DirView, fail_fast: bool) -> Seq<
    ViolationView,
> {
    if fail_fast {
        first_of(stale_hits(current, dir))
    } else {
        stale_hits(current, dir)
    }
}

/// The part of a scan of `dir` that follows its files: the stale
/// references of its rules document, then its child directories. In
/// fail-fast mode it ends with the first stale reference, if there is one.
pub open spec fn scan_below(
    root: DirView,
    disallowed: Seq<Seq<char>>,
    current: Seq<Seq<char>>,
    dir: DirView,
    fail_fast: bool,
    found_before: bool,
) -> Seq<ViolationView>
    decreases dir, 1nat, 0nat,
{
    let stale = reported_stale(current, dir, fail_fast);
    if fail_fast && (found_before || stale.len() > 0) {
        stale
    } else {
        stale + scan_children(root, disallowed, current, dir, 0, fail_fast)
    }
}

/// What the scans of the child directories of `dir` find, from the child
/// at position `from` on. A name leads to the first child directory that
/// has it.
pub open spec fn scan_children(
    root: DirView,
    disallowed: Seq<Seq<char>>,
    current: Seq<Seq<char>>,
    dir: DirView,
    from: int,
    fail_fast: bool,
) -> Seq<ViolationView>
    decreases dir, 0nat, dir.directories.len() - from,
{
    if from < 0 || from >= dir.directories.len() {
        Seq::empty()
    } else {
        let name = dir.directories[from].name;
        let at = child_position(dir.directories, name);
        let first = if 0 <= at < dir.directories.len() {
            scan_dir(
                root,
                child_disallowed(current, disallowed, dir.rules, name),
                current.push(name),
                dir.directories[at],
                fail_fast,
                false,
            )
        } else {
            Seq::empty()
        };
        if fail_fast && first.len() > 0 {
            first
        } else {
            first + scan_children(root, disallowed, current, dir, from + 1, fail_fast)
        }
    }
}

/// How far a scan can still descend from the path `current`.
pub open spec fn depth_below(root: DirView, current: Seq<Seq<char>>) -> nat {
    match dir_at(root, current) {
        Some(dir) => height(dir),
        None => 0,
    }
}

/// Tests one import against the disallowed prefixes. Says whether it found
/// a violation.
fn check_import(
    violations: &mut Vec<Violation>,
    file_path: &str,
    target: &str,
    raw: &str,
    disallowed_imports: &Vec<String>,
    abort_on_violation: bool,
) -> (found: bool)
    ensures
        final(violations).deep_view() == old(violations).deep_view() + import_hits(
            file_path@,
            target@,
            raw@,
            disallowed_imports.deep_view(),
            abort_on_violation,
        ),
        found == (final(violations).len() > old(violations).len()),
{
    let ghost before = violations.deep_view();
    let ghost dis = disallowed_imports.deep_view();
    let ghost all = import_hits(file_path@, target@, raw@, dis, abort_on_violation);
    let mut found = false;
    let mut k: usize = 0;
    proof {
        assert(dis.skip(0) =~= dis);
        assert(before + Seq::<ViolationView>::empty() =~= before);
    }
    while k < disallowed_imports.len()
        invariant
            k <= disallowed_imports.len(),
            dis == disallowed_imports.deep_view(),
            all == import_hits(file_path@, target@, raw@, dis, abort_on_violation),
            violations.deep_view() + import_hits(
                file_path@,
                target@,
                raw@,
                dis.skip(k as int),
                abort_on_violation,
            ) == before + all,
            violations.len() >= old(violations).len(),
            found == (violations.len() > old(violations).len()),
            before == old(violations).deep_view(),
            abort_on_violation ==> !found,
        decreases disallowed_imports.len() - k,
    {
        let ghost so_far = violations.deep_view();
        proof {
            assert(dis.skip(k as int)[0] == dis[k as int]);
            assert(dis.skip(k as int).drop_first() =~= dis.skip(k + 1));
        }
        if path_starts_with(target, disallowed_imports[k].as_str()) {
            let violation = DisallowedImportViolation {
                file_path: String::from_str(file_path),
                disallowed_import: disallowed_imports[k].clone(),
                full_disallowed_import: String::from_str(raw),
            };
            violations.push(Violation::DisallowedImportViolation(violation));
            found = true;
            proof {
                let hit = import_hit(file_path@, dis[k as int], raw@);
                assert(violations.deep_view() =~= so_far.push(hit));
                let rest = import_hits(
                    file_path@,
                    target@,
                    raw@,
                    dis.skip(k + 1),
                    abort_on_violation,
                );
                if abort_on_violation {
                    assert(so_far + seq![hit] =~= so_far.push(hit));
                } else {
                    assert(so_far + (seq![hit] + rest) =~= so_far.push(hit) + rest);
                }
            }
            if abort_on_violation {
                return true;
            }
        }
        k += 1;
    }
    proof {
        assert(dis.skip(k as int).len() == 0);
        assert(violations.deep_view() + Seq::<ViolationView>::empty() =~= violations.deep_view());
    }
    found
}

/// Tests the imports of one file against the disallowed prefixes. Says
/// whether it found a violation.
fn check_file(
    violations: &mut Vec<Violation>,
    root: &Directory,
    disallowed_imports: &Vec<String>,
    current: &Vec<String>,
    file_path: &str,
    imports: &Vec<String>,
    abort_on_violation: bool,
) -> (found: bool)
    ensures
        final(violations).deep_view() == old(violations).deep_view() + file_hits(
            root@,
            current.deep_view(),
            file_path@,
            imports.deep_view(),
            disallowed_imports.deep_view(),
            abort_on_violation,
        ),
        found == (final(violations).len() > old(violations).len()),
{
    let ghost before = violations.deep_view();
    let ghost dis = disallowed_imports.deep_view();
    let ghost cur = current.deep_view();
    let ghost imps = imports.deep_view();
    let ghost all = file_hits(root@, cur, file_path@, imps, dis, abort_on_violation);
    let mut found = false;
    let mut k: usize = 0;
    proof {
        assert(imps.skip(0) =~= imps);
        assert(before + Seq::<ViolationView>::empty() =~= before);
    }
    while k < imports.len()
        invariant
            k <= imports.len(),
            dis == disallowed_imports.deep_view(),
            cur == current.deep_view(),
            imps == imports.deep_view(),
            all == file_hits(root@, cur, file_path@, imps, dis, abort_on_violation),
            violations.deep_view() + file_hits(
                root@,
                cur,
                file_path@,
                imps.skip(k as int),
                dis,
                abort_on_violation,
            ) == before + all,
            violations.len() >= old(violations).len(),
            found == (violations.len() > old(violations).len()),
            before == old(violations).deep_view(),
            abort_on_violation ==> !found,
        decreases imports.len() - k,
    {
        let ghost so_far = violations.deep_view();
        proof {
            assert(imps.skip(k as int)[0] == imps[k as int]);
            assert(imps.skip(k as int).drop_first() =~= imps.skip(k + 1));
        }
        let target = canonicalize_import_path(imports[k].as_str(), root, current);
        let hit = check_import(
            violations,
            file_path,
            target.as_str(),
            imports[k].as_str(),
            disallowed_imports,
            abort_on_violation,
        );
        proof {
            let first = import_hits(file_path@, target@, imps[k as int], dis, abort_on_violation);
            let rest = file_hits(
                root@,
                cur,
                file_path@,
                imps.skip(k + 1),
                dis,
                abort_on_violation,
            );
            assert(violations.deep_view().len() == so_far.len() + first.len());
            if !(abort_on_violation && first.len() > 0) {
                assert(so_far + (first + rest) =~= (so_far + first) + rest);
            }
        }
        if hit {
            found = true;
            if abort_on_violation {
                return true;
            }
        }
        k += 1;
    }
    proof {
        assert(imps.skip(k as int).len() == 0);
        assert(violations.deep_view() + Seq::<ViolationView>::empty() =~= violations.deep_view());
    }
    found
}

/// Whether a file of this name is a source file.
pub fn name_is_source_file(name: &str) -> (r: bool)
    ensures
        r == is_source_file(name@),
{
    proof {
        reveal_strlit(".ts");
        assert(".ts"@ =~= source_extension());
    }
    ends_with(name, ".ts")
}

/// Tests the imports of the source files `files` of the directory
/// `current` against the prefixes `disallowed_imports`, and appends a
/// violation to `violations` for each import that begins with one of them.
/// With `abort_on_violation` it stops after the first violation it finds.
pub fn check_files_for_disallowed_imports(
    violations: &mut Vec<Violation>,
    root: &Directory,
    disallowed_imports: &Vec<String>,
    current: &Vec<String>,
    files: &Vec<SourceFile>,
    abort_on_violation: bool,
)
    ensures
        final(violations).deep_view() == old(violations).deep_view() + files_hits(
            root@,
            current.deep_view(),
            files.deep_view(),
            disallowed_imports.deep_view(),
            abort_on_violation,
        ),
        abort_on_violation ==> final(violations).len() <= old(violations).len() + 1,
{
    let ghost before = violations.deep_view();
    let ghost dis = disallowed_imports.deep_view();
    let ghost cur = current.deep_view();
    proof {
        crate::found::lemma_files_fail_fast_one(root@, cur, files.deep_view(), dis);
    }
    let ghost all = files_hits(root@, cur, files.deep_view(), dis, abort_on_violation);
    let mut k: usize = 0;
    proof {
        assert(files.deep_view().skip(0) =~= files.deep_view());
        assert(before + Seq::<ViolationView>::empty() =~= before);
    }
    while k < files.len()
        invariant
            k <= files.len(),
            dis == disallowed_imports.deep_view(),
            cur == current.deep_view(),
            before == old(violations).deep_view(),
            abort_on_violation ==> all.len() <= 1,
            all == files_hits(root@, cur, files.deep_view(), dis, abort_on_violation),
            violations.deep_view() + files_hits(
                root@,
                cur,
                files.deep_view().skip(k as int),
                dis,
                abort_on_violation,
            ) == before + all,
        decreases files.len() - k,
    {
        let ghost so_far = violations.deep_view();
        proof {
            assert(files.deep_view().skip(k as int)[0] == files.deep_view()[k as int]);
            assert(files.deep_view().skip(k as int).drop_first() =~= files.deep_view().skip(k + 1));
        }
        let file = &files[k];
        if name_is_source_file(file.name.as_str()) {
            let file_path = path_of_child(current, file.name.as_str());
            let hit = check_file(
                violations,
                root,
                disallowed_imports,
                current,
                file_path.as_str(),
                &file.imports,
                abort_on_violation,
            );
            proof {
                let first = file_hits(
                    root@,
                    cur,
                    file_path@,
                    file.imports.deep_view(),
                    dis,
                    abort_on_violation,
                );
                let rest = files_hits(root@, cur, files.deep_view().skip(k + 1), dis, abort_on_violation);
                assert(violations.deep_view().len() == so_far.len() + first.len());
                if !(abort_on_violation && first.len() > 0) {
                    assert(so_far + (first + rest) =~= (so_far + first) + rest);
                }
            }
            if hit && abort_on_violation {
                return ;
            }
        } else {
            proof {
                let rest = files_hits(root@, cur, files.deep_view().skip(k + 1), dis, abort_on_violation);
                assert(Seq::<ViolationView>::empty() + rest =~= rest);
            }
        }
        k += 1;
    }
    proof {
        assert(files.deep_view().skip(k as int).len() == 0);
        assert(violations.deep_view() + Seq::<ViolationView>::empty() =~= violations.deep_view());
    }
}

/// The names of the child directories of `dir`, in order.
pub fn names_of_children(dir: &Directory) -> (r: Vec<String>)
    ensures
        r.deep_view() == child_names(dir@),
{
    let mut out: Vec<String> = Vec::new();
    let mut i: usize = 0;
    while i < dir.directories.len()
        invariant
            i <= dir.directories.len(),
            out.len() == i,
            forall|k: int| 0 <= k < i ==> out@[k]@ == dir.directories@[k].name@,
        decreases dir.directories.len() - i,
    {
        out.push(dir.directories[i].name.clone());
        i += 1;
    }
    proof {
        lemma_dirs_view(dir.directories@);
    }
    assert(out.deep_view() =~= child_names(dir@));
    out
}

/// The rules document of the directory at the path `current`, if it has
/// one, and a violation for each stale reference of that document: each
/// name that it refers to while the directory has no child directory of
/// that name. Where the tree has no directory at `current`, there is
/// neither.
pub fn get_dir_rules_if_exists<'a>(root: &'a Directory, current: &Vec<String>) -> (r: (
    Option<&'a RulesDocument>,
    Vec<ReferenceToNonexistentDirectory>,
))
    ensures
        match dir_at(root@, current.deep_view()) {
            Some(dir) => {
                &&& match r.0 {
                    Some(doc) => dir.rules == Some(doc@),
                    None => dir.rules is None,
                }
                &&& r.1.deep_view() == stale_hits(current.deep_view(), dir)
            },
            None => r.0 is None && r.1.deep_view() == Seq::<ViolationView>::empty(),
        },
{
    let mut issues: Vec<ReferenceToNonexistentDirectory> = Vec::new();
    match lookup(root, current) {
        None => {
            assert(issues.deep_view() =~= Seq::<ViolationView>::empty());
            (None, issues)
        },
        Some(dir) => {
            match &dir.rules {
                None => {
                    assert(issues.deep_view() =~= Seq::<ViolationView>::empty());
                    (None, issues)
                },
                Some(doc) => {
                    let children = names_of_children(dir);
                    let stale = doc.stale_references(&children);
                    let rules_file_path = path_of_child(current, RULES_FILE_NAME);
                    let mut i: usize = 0;
                    while i < stale.len()
                        invariant
                            i <= stale.len(),
                            issues.len() == i,
                            rules_file_path@ == child_path(current.deep_view(), RULES_FILE_NAME@),
                            forall|k: int|
                                0 <= k < i ==> (#[trigger] issues@[k])@
                                    == (ViolationView::NonexistentDirectory {
                                    rules_file_path: rules_file_path@,
                                    nonexistent_directory: stale.deep_view()[k],
                                }),
                        decreases stale.len() - i,
                    {
                        issues.push(
                            ReferenceToNonexistentDirectory {
                                rules_file_path: rules_file_path.clone(),
                                nonexistent_directory: stale[i].clone(),
                            },
                        );
                        i += 1;
                    }
                    assert(issues.deep_view() =~= stale_hits(current.deep_view(), dir@));
                    (Some(doc), issues)
                },
            }
        },
    }
}

/// Without fail-fast mode a scan finds the same, whatever was known before.
pub proof fn lemma_found_before_ignored(
    root: DirView,
    disallowed: Seq<Seq<char>>,
    current: Seq<Seq<char>>,
    dir: DirView,
    a: bool,
    b: bool,
)
    ensures
        scan_dir(root, disallowed, current, dir, false, a) == scan_dir(
            root,
            disallowed,
            current,
            dir,
            false,
            b,
        ),
        scan_below(root, disallowed, current, dir, false, a) == scan_below(
            root,
            disallowed,
            current,
            dir,
            false,
            b,
        ),
{
}

/// Scans the directory at the path `current` of the tree `root` and all
/// directories below it, and appends what it finds to `violations`:
/// imports that begin with one of the prefixes `disallowed_imports` or
/// with one that the rules on the way down add, and stale references of
/// rules documents. With `abort_on_violation` the scan ends as soon as
/// `violations` holds anything. It fails, and leaves `violations` as it
/// is, where the tree has no directory at `current`.
pub fn visit_path(
    violations: &mut Vec<Violation>,
    root: &Directory,
    disallowed_imports: &Vec<String>,
    current: &Vec<String>,
    abort_on_violation: bool,
) -> (r: Result<(), ScanError>)
    ensures
        match dir_at(root@, current.deep_view()) {
            Some(dir) => r is Ok && final(violations).deep_view() == old(violations).deep_view()
                + scan_dir(
                root@,
                disallowed_imports.deep_view(),
                current.deep_view(),
                dir,
                abort_on_violation,
                old(violations).len() > 0,
            ),
            None => r == Err::<(), ScanError>(ScanError::MissingDirectory)
                && final(violations).deep_view() == old(violations).deep_view(),
        },
        abort_on_violation ==> final(violations).len() <= old(violations).len() + 1,
    decreases depth_below(root@, current.deep_view()), 1nat,
{
    let ghost before = violations.deep_view();
    proof {
        if dir_at(root@, current.deep_view()) is Some {
            crate::found::lemma_scan_fail_fast_one(
                root@,
                disallowed_imports.deep_view(),
                current.deep_view(),
                dir_at(root@, current.deep_view())->0,
                old(violations).len() > 0,
            );
        }
    }
    let dir = match lookup(root, current) {
        Some(dir) => dir,
        None => {
            return Err(ScanError::MissingDirectory);
        },
    };
    check_files_for_disallowed_imports(
        violations,
        root,
        disallowed_imports,
        current,
        &dir.files,
        abort_on_violation,
    );
    let ghost found = files_hits(
        root@,
        current.deep_view(),
        dir@.files,
        disallowed_imports.deep_view(),
        abort_on_violation,
    );
    assert(violations.deep_view().len() == before.len() + found.len());
    if abort_on_violation && violations.len() > 0 {
        return Ok(());
    }
    let ghost mid = violations.deep_view();
    let r = visit_directories(violations, root, disallowed_imports, current, abort_on_violation);
    proof {
        let below = scan_below(
            root@,
            disallowed_imports.deep_view(),
            current.deep_view(),
            dir@,
            abort_on_violation,
            mid.len() > 0,
        );
        assert(before + (found + below) =~= (before + found) + below);
        if !abort_on_violation {
            lemma_found_before_ignored(
                root@,
                disallowed_imports.deep_view(),
                current.deep_view(),
                dir@,
                mid.len() > 0,
                before.len() > 0,
            );
        }
    }
    r
}

/// Reports the stale references of the rules document of the directory at
/// the path `current`, then scans each of its child directories with the
/// prefixes that the rules give it, and appends what is found to
/// `violations`. With `abort_on_violation` it reports the first stale
/// reference only, and ends as soon as `violations` holds anything. It
/// fails, and leaves `violations` as it is, where the tree has no
/// directory at `current`.
pub fn visit_directories(
    violations: &mut Vec<Violation>,
    root: &Directory,
    disallowed_imports: &Vec<String>,
    current: &Vec<String>,
    abort_on_violation: bool,
) -> (r: Result<(), ScanError>)
    ensures
        match dir_at(root@, current.deep_view()) {
            Some(dir) => r is Ok && final(violations).deep_view() == old(violations).deep_view()
                + scan_below(
                root@,
                disallowed_imports.deep_view(),
                current.deep_view(),
                dir,
                abort_on_violation,
                old(violations).len() > 0,
            ),
            None => r == Err::<(), ScanError>(ScanError::MissingDirectory)
                && final(violations).deep_view() == old(violations).deep_view(),
        },
        abort_on_violation ==> final(violations).len() <= old(violations).len() + 1,
    decreases depth_below(root@, current.deep_view()), 0nat,
{
    let ghost before = violations.deep_view();
    proof {
        if dir_at(root@, current.deep_view()) is Some {
            crate::found::lemma_scan_fail_fast_one(
                root@,
                disallowed_imports.deep_view(),
                current.deep_view(),
                dir_at(root@, current.deep_view())->0,
                old(violations).len() > 0,
            );
        }
    }
    let ghost dis = disallowed_imports.deep_view();
    let ghost cur = current.deep_view();
    let dir = match lookup(root, current) {
        Some(dir) => dir,
        None => {
            return Err(ScanError::MissingDirectory);
        },
    };
    let (_, issues) = get_dir_rules_if_exists(root, current);
    let ghost every = stale_hits(cur, dir@);
    let ghost stale = reported_stale(cur, dir@, abort_on_violation);
    let count: usize = if abort_on_violation && issues.len() > 1 {
        1
    } else {
        issues.len()
    };
    let mut i: usize = 0;
    proof {
        assert(before + every.take(0) =~= before);
    }
    while i < count
        invariant
            i <= count <= issues.len(),
            issues.deep_view() == every,
            violations.deep_view() == before + every.take(i as int),
        decreases count - i,
    {
        let ghost so_far = violations.deep_view();
        violations.push(Violation::ReferenceToNonexistentDirectory(issues[i].clone_issue()));
        proof {
            assert(violations.deep_view() =~= so_far.push(every[i as int]));
            assert(every.take(i + 1) =~= every.take(i as int).push(every[i as int]));
        }
        i += 1;
    }
    proof {
        assert(every.take(count as int) =~= stale);
    }
    if abort_on_violation && violations.len() > 0 {
        return Ok(());
    }
    let ghost start = violations.deep_view();
    let ghost all = scan_children(root@, dis, cur, dir@, 0, abort_on_violation);
    let mut k: usize = 0;
    proof {
        lemma_dirs_view(dir.directories@);
    }
    while k < dir.directories.len()
        invariant
            k <= dir.directories.len(),
            dir@.directories.len() == dir.directories@.len(),
            forall|j: int|
                0 <= j < dir.directories@.len() ==> #[trigger] dir@.directories[j] == dir_view(
                    dir.directories@[j],
                ),
            dis == disallowed_imports.deep_view(),
            cur == current.deep_view(),
            dir_at(root@, cur) == Some(dir@),
            all == scan_children(root@, dis, cur, dir@, 0, abort_on_violation),
            violations.deep_view() + scan_children(
                root@,
                dis,
                cur,
                dir@,
                k as int,
                abort_on_violation,
            ) == start + all,
            abort_on_violation ==> violations.len() == 0,
            start == before + stale,
            before == old(violations).deep_view(),
            stale == reported_stale(cur, dir@, abort_on_violation),
            abort_on_violation ==> before.len() == 0 && stale.len() == 0,
        decreases dir.directories.len() - k,
    {
        let ghost so_far = violations.deep_view();
        let name = dir.directories[k].name.as_str();
        let dir_disallowed_imports = get_child_disallowed_imports(
            current,
            disallowed_imports,
            &dir.rules,
            name,
        );
        let mut next = clone_names(current);
        next.push(String::from_str(name));
        proof {
            assert(name@ == dir@.directories[k as int].name);
            assert(next.deep_view() =~= cur.push(name@));
            lemma_dir_at_push(root@, cur, name@);
            lemma_child_position(dir@.directories, name@);
            assert(child_named(dir@, name@) is Some);
            lemma_child_height(dir@, name@);
        }
        let r = visit_path(violations, root, &dir_disallowed_imports, &next, abort_on_violation);
        proof {
            let at = child_position(dir@.directories, name@);
            let first = scan_dir(
                root@,
                child_disallowed(cur, dis, dir@.rules, name@),
                cur.push(name@),
                dir@.directories[at],
                abort_on_violation,
                false,
            );
            if !abort_on_violation {
                lemma_found_before_ignored(
                    root@,
                    child_disallowed(cur, dis, dir@.rules, name@),
                    cur.push(name@),
                    dir@.directories[at],
                    so_far.len() > 0,
                    false,
                );
            }
            assert(violations.deep_view() == so_far + first);
            let rest = scan_children(root@, dis, cur, dir@, k + 1, abort_on_violation);
            if !(abort_on_violation && first.len() > 0) {
                assert(so_far + (first + rest) =~= (so_far + first) + rest);
            }
        }
        match r {
            Ok(()) => {},
            Err(e) => {
                return Err(e);
            },
        }
        if abort_on_violation && violations.len() > 0 {
            proof {
                assert(before + (stale + all) =~= (before + stale) + all);
            }
            return Ok(());
        }
        k += 1;
    }
    proof {
        assert(violations.deep_view() + Seq::<ViolationView>::empty() =~= violations.deep_view());
        assert(before + (stale + all) =~= (before + stale) + all);
    }
    Ok(())
}

/// The rules of the directory at `path`, if there is such a directory and
/// it has rules.
pub open spec fn rules_at(root: DirView, path: Seq<Seq<char>>) -> Option<Graph> {
    match dir_at(root, path) {
        Some(dir) => dir.rules,
        None => None,
    }
}

/// The prefixes that the directory at `path` may not import: what the
/// rules of each directory on the way from the root add for the next one.
/// The root itself may import everything.
pub open spec fn disallowed_at(root: DirView, path: Seq<Seq<char>>) -> Seq<Seq<char>>
    decreases path.len(),
{
    if path.len() == 0 {
        Seq::empty()
    } else {
        let parent = path.drop_last();
        child_disallowed(parent, disallowed_at(root, parent), rules_at(root, parent), path.last())
    }
}

/// A directory may import nothing that a directory above it may not: the
/// prefixes of each directory on the way from the root stand, in their
/// order, at the start of the list of every directory further down.
pub proof fn lemma_restrictions_pass_down(root: DirView, path: Seq<Seq<char>>, n: int)
    requires
        0 <= n <= path.len(),
    ensures
        disallowed_at(root, path.take(n)).is_prefix_of(disallowed_at(root, path)),
        forall|p: Seq<char>|
            disallowed_at(root, path.take(n)).contains(p) ==> disallowed_at(root, path).contains(
                p,
            ),
    decreases path.len() - n,
{
    let upper = disallowed_at(root, path.take(n));
    let lower = disallowed_at(root, path);
    if n == path.len() {
        assert(path.take(n) =~= path);
    } else {
        let parent = path.drop_last();
        assert(parent.take(n) =~= path.take(n));
        lemma_restrictions_pass_down(root, parent, n);
        crate::disallowed::lemma_child_keeps_parent_restrictions(
            parent,
            disallowed_at(root, parent),
            rules_at(root, parent),
            path.last(),
        );
    }
    assert forall|p: Seq<char>| upper.contains(p) implies lower.contains(p) by {
        let j = choose|j: int| 0 <= j < upper.len() && upper[j] == p;
        assert(lower[j] == p);
    }
}

/// The position of the first of `files` that is named `name`, or the
/// length of `files` if none is.
pub open spec fn file_position(files: Seq<FileView>, name: Seq<char>) -> int
    decreases files.len(),
{
    if files.len() == 0 {
        0
    } else if files[0].name == name {
        0
    } else {
        1 + file_position(files.drop_first(), name)
    }
}

/// What a scan of the target `target` finds. A target is a directory, which
/// is scanned with all below it, or a file, of which only the imports are
/// tested; either with the prefixes that the rules above it forbid. There
/// is no result where `target` leads to neither.
pub open spec fn scan_target(root: DirView, target: Seq<Seq<char>>, fail_fast: bool) -> Option<
    Seq<ViolationView>,
> {
    match dir_at(root, target) {
        Some(dir) => Some(
            scan_dir(root, disallowed_at(root, target), target, dir, fail_fast, false),
        ),
        None => if target.len() == 0 {
            None
        } else {
            let parent = target.drop_last();
            match dir_at(root, parent) {
                Some(dir) => {
                    let at = file_position(dir.files, target.last());
                    if 0 <= at < dir.files.len() {
                        Some(
                            files_hits(
                                root,
                                parent,
                                seq![dir.files[at]],
                                disallowed_at(root, parent),
                                fail_fast,
                            ),
                        )
                    } else {
                        None
                    }
                },
                None => None,
            }
        },
    }
}

/// The prefixes that the directory at `path` may not import.
pub fn disallowed_imports_at(root: &Directory, path: &Vec<String>) -> (r: Vec<String>)
    ensures
        r.deep_view() == disallowed_at(root@, path.deep_view()),
{
    let ghost names = path.deep_view();
    let mut disallowed: Vec<String> = Vec::new();
    let mut parent: Vec<String> = Vec::new();
    let mut k: usize = 0;
    proof {
        assert(names.take(0) =~= Seq::<Seq<char>>::empty());
        assert(disallowed.deep_view() =~= Seq::<Seq<char>>::empty());
        assert(parent.deep_view() =~= names.take(0));
    }
    while k < path.len()
        invariant
            k <= path.len(),
            names == path.deep_view(),
            parent.deep_view() == names.take(k as int),
            disallowed.deep_view() == disallowed_at(root@, names.take(k as int)),
        decreases path.len() - k,
    {
        let ghost above = parent.deep_view();
        proof {
            assert(names.take(k + 1).drop_last() =~= names.take(k as int));
            assert(names.take(k + 1).last() == names[k as int]);
        }
        let none: Option<RulesDocument> = None;
        let next = match lookup(root, &parent) {
            Some(dir) => get_child_disallowed_imports(
                &parent,
                &disallowed,
                &dir.rules,
                path[k].as_str(),
            ),
            None => get_child_disallowed_imports(&parent, &disallowed, &none, path[k].as_str()),
        };
        disallowed = next;
        parent.push(path[k].clone());
        proof {
            assert(parent.deep_view() =~= above.push(names[k as int]));
            assert(above.push(names[k as int]) =~= names.take(k + 1));
        }
        k += 1;
    }
    proof {
        assert(names.take(k as int) =~= names);
    }
    disallowed
}

/// The position of the first file of `dir` that is named `name`.
pub fn find_file(dir: &Directory, name: &str) -> (r: Option<usize>)
    ensures
        match r {
            Some(i) => i == file_position(dir@.files, name@) && i < dir.files@.len(),
            None => file_position(dir@.files, name@) >= dir@.files.len(),
        },
{
    let ghost files = dir@.files;
    let mut i: usize = 0;
    proof {
        assert(files.skip(0) =~= files);
    }
    while i < dir.files.len()
        invariant
            i <= dir.files.len(),
            files == dir@.files,
            file_position(files, name@) == i + file_position(files.skip(i as int), name@),
        decreases dir.files.len() - i,
    {
        proof {
            assert(files.skip(i as int)[0] == files[i as int]);
            assert(files.skip(i as int).drop_first() =~= files.skip(i + 1));
        }
        if crate::text::text_eq(dir.files[i].name.as_str(), name) {
            return Some(i);
        }
        i += 1;
    }
    proof {
        assert(files.skip(i as int).len() == 0);
    }
    None
}

/// Scans the target `target` of the tree `root` and gives what it finds. A
/// target is a directory, which is scanned with all below it, or a file.
/// With `abort_on_violation` the scan ends with the first violation that
/// it finds. It fails where `target` leads to nothing in the tree.
pub fn list_violations(root: &Directory, target: &Vec<String>, abort_on_violation: bool) -> (r:
    Result<Vec<Violation>, ScanError>)
    ensures
        match scan_target(root@, target.deep_view(), abort_on_violation) {
            Some(found) => r matches Ok(violations) && violations.deep_view() == found,
            None => r matches Err(e) && e == ScanError::MissingDirectory,
        },
        abort_on_violation ==> (r matches Ok(violations) ==> violations.len() <= 1),
{
    proof {
        if abort_on_violation && scan_target(root@, target.deep_view(), true) is Some {
            crate::found::lemma_fail_fast_finds_at_most_one(root@, target.deep_view());
        }
    }
    let mut violations: Vec<Violation> = Vec::new();
    assert(violations.deep_view() =~= Seq::<ViolationView>::empty());
    match lookup(root, target) {
        Some(dir) => {
            let disallowed = disallowed_imports_at(root, target);
            let r = visit_path(&mut violations, root, &disallowed, target, abort_on_violation);
            proof {
                let found = scan_dir(
                    root@,
                    disallowed.deep_view(),
                    target.deep_view(),
                    dir@,
                    abort_on_violation,
                    false,
                );
                assert(Seq::<ViolationView>::empty() + found =~= found);
            }
            match r {
                Ok(()) => Ok(violations),
                Err(e) => Err(e),
            }
        },
        None => {
            if target.len() == 0 {
                return Err(ScanError::MissingDirectory);
            }
            let mut parent = clone_names(target);
            let name = parent.pop().unwrap();
            proof {
                assert(parent.deep_view() =~= target.deep_view().drop_last());
            }
            match lookup(root, &parent) {
                None => Err(ScanError::MissingDirectory),
                Some(dir) => {
                    match find_file(dir, name.as_str()) {
                        None => Err(ScanError::MissingDirectory),
                        Some(at) => {
                            let disallowed = disallowed_imports_at(root, &parent);
                            let mut files: Vec<SourceFile> = Vec::new();
                            files.push(
                                SourceFile {
                                    name: dir.files[at].name.clone(),
                                    imports: clone_names(&dir.files[at].imports),
                                },
                            );
                            proof {
                                assert(files.deep_view() =~= seq![dir@.files[at as int]]);
                            }
                            check_files_for_disallowed_imports(
                                &mut violations,
                                root,
                                &disallowed,
                                &parent,
                                &files,
                                abort_on_violation,
                            );
                            proof {
                                let found = files_hits(
                                    root@,
                                    parent.deep_view(),
                                    files.deep_view(),
                                    disallowed.deep_view(),
                                    abort_on_violation,
                                );
                                assert(Seq::<ViolationView>::empty() + found =~= found);
                            }
                            Ok(violations)
                        },
                    }
                },
            }
        },
    }
}

} // verus!
