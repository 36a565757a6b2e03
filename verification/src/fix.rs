//! The fix engine: it scans in fail-fast mode, repairs what the scan
//! reports by changing the rules document that governs it, and scans
//! again, until a scan finds nothing.
use vstd::prelude::*;
use crate::allows::has_source;
use crate::paths::{components, path_components};
use crate::rules::{names_of, with_allowed, without_name};
use crate::text::contains_name;
use crate::tree::{dir_at, lookup, with_rules_at, Directory, DirView};
use crate::violations::{
    DisallowedImportViolation, ReferenceToNonexistentDirectory, Violation, ViolationView,
};
use crate::visit::{list_violations, scan_target};

verus! {

/// How many rounds of repair the fix engine makes before it gives up.
pub const MAX_FIX_ROUNDS: usize = 500;

/// Why the fix engine stopped without a clean scan.
#[derive(Clone, Copy, Debug, PartialEq, Eq, Structural)]
pub enum FixError {
    /// A target leads to nothing in the tree.
    MissingTarget,
    /// A violation points to no rule that could be changed.
    Unfixable,
    /// The scans still found violations after the last round of repair.
    DidNotConverge,
}

/// The tree `root` after the repair of a disallowed import: in the rules
/// document of the directory that the prefix `prefix` is an entry of, the
/// rule for the child directory that holds the file `file_path` is widened
/// by the last component of `prefix`.
///
/// There is no repair where the prefix has no last component, where the
/// file is not inside a child of that directory, where the directory has
/// no rules, and where its rules have no rule for that child or do not
/// know the name to be allowed.
pub open spec fn import_repair(root: DirView, file_path: Seq<char>, prefix: Seq<char>) -> Option<
    DirView,
> {
    let entry = components(prefix);
    let file = components(file_path);
    if entry.len() == 0 {
        None
    } else {
        let dir = entry.drop_last();
        let target = entry.last();
        if dir.is_prefix_of(file) && file.len() > dir.len() + 1 {
            let child = file[dir.len() as int];
            match dir_at(root, dir) {
                Some(d) => match d.rules {
                    Some(g) => if has_source(g, child) && names_of(g).contains(target) {
                        Some(with_rules_at(root, dir, Some(with_allowed(g, child, target))))
                    } else {
                        None
                    },
                    None => None,
                },
                None => None,
            }
        } else {
            None
        }
    }
}

/// The tree `root` after the repair of a stale reference: the name `name`
/// is removed from the rules document whose file is `rules_file_path`.
/// There is no repair where that path leads to no rules document.
pub open spec fn stale_repair(root: DirView, rules_file_path: Seq<char>, name: Seq<char>) -> Option<
    DirView,
> {
    let file = components(rules_file_path);
    if file.len() == 0 {
        None
    } else {
        let dir = file.drop_last();
        match dir_at(root, dir) {
            Some(d) => match d.rules {
                Some(g) => Some(with_rules_at(root, dir, Some(without_name(g, name)))),
                None => None,
            },
            None => None,
        }
    }
}

/// The tree `root` after the repair of the violation `v`, if there is one.
pub open spec fn repair(root: DirView, v: ViolationView) -> Option<DirView> {
    match v {
        ViolationView::DisallowedImport { file_path, disallowed_import, .. } => import_repair(
            root,
            file_path,
            disallowed_import,
        ),
        ViolationView::NonexistentDirectory {
            rules_file_path,
            nonexistent_directory,
        } => stale_repair(root, rules_file_path, nonexistent_directory),
    }
}

/// The tree `root` after the repair of the violations `found`, one after
/// another, and whether each of them could be repaired. The repairs end
/// with the first violation that cannot be repaired.
pub open spec fn repair_all(root: DirView, found: Seq<ViolationView>) -> (DirView, bool)
    decreases found.len(),
{
    if found.len() == 0 {
        (root, true)
    } else {
        match repair(root, found[0]) {
            Some(repaired) => repair_all(repaired, found.drop_first()),
            None => (root, false),
        }
    }
}

/// How the fix engine ends.
pub struct FixOutcome {
    /// The tree as the engine leaves it.
    pub tree: DirView,
    /// How many rounds of repair were made in all.
    pub rounds: nat,
    /// Whether the engine reached a clean scan, or why it did not.
    pub result: Result<(), FixError>,
}

/// How the fix engine ends on the target `target`, after `rounds` rounds of
/// repair were made before.
///
/// It scans the target in fail-fast mode. A scan that finds nothing ends
/// the work with success. Otherwise what the scan found is repaired and
/// the engine gives up where a repair cannot be made and where
/// `MAX_FIX_ROUNDS` rounds were made before this one; else it counts the
/// round and scans again.
pub open spec fn fix_target(root: DirView, target: Seq<Seq<char>>, rounds: nat) -> FixOutcome
    decreases MAX_FIX_ROUNDS + 1 - rounds,
{
    match scan_target(root, target, true) {
        None => FixOutcome { tree: root, rounds, result: Err(FixError::MissingTarget) },
        Some(found) => if found.len() == 0 {
            FixOutcome { tree: root, rounds, result: Ok(()) }
        } else {
            let (repaired, complete) = repair_all(root, found);
            if !complete {
                FixOutcome { tree: repaired, rounds, result: Err(FixError::Unfixable) }
            } else if rounds >= MAX_FIX_ROUNDS {
                FixOutcome { tree: repaired, rounds, result: Err(FixError::DidNotConverge) }
            } else {
                fix_target(repaired, target, rounds + 1)
            }
        },
    }
}

/// How the fix engine ends on the targets `targets`, one after another,
/// after `rounds` rounds of repair were made before. The rounds are counted
/// over all targets, and the first target on which the engine fails ends
/// the work.
pub open spec fn fix_targets(root: DirView, targets: Seq<Seq<Seq<char>>>, rounds: nat) -> FixOutcome
    decreases targets.len(),
{
    if targets.len() == 0 {
        FixOutcome { tree: root, rounds, result: Ok(()) }
    } else {
        let first = fix_target(root, targets[0], rounds);
        if first.result is Ok {
            fix_targets(first.tree, targets.drop_first(), first.rounds)
        } else {
            first
        }
    }
}

/// Repairs a disallowed import: in the rules document that governs it, the
/// rule of the directory that holds the importing file is widened so that
/// it allows the import. It fails, and changes nothing, where the
/// violation points to no such rule.
pub fn fix_violation(root: &mut Directory, violation: &DisallowedImportViolation) -> (r: Result<
    (),
    FixError,
>)
    ensures
        match import_repair(old(root)@, violation.file_path@, violation.disallowed_import@) {
            Some(repaired) => r is Ok && final(root)@ == repaired,
            None => r == Err::<(), FixError>(FixError::Unfixable) && final(root)@ == old(root)@,
        },
{
    let mut dir = path_components(violation.disallowed_import.as_str());
    let file = path_components(violation.file_path.as_str());
    if dir.len() == 0 {
        return Err(FixError::Unfixable);
    }
    let ghost entry = dir.deep_view();
    let target = dir.pop().unwrap();
    proof {
        assert(dir.deep_view() =~= entry.drop_last());
    }
    if !crate::paths::components_begin_with(&file, &dir) || file.len() <= dir.len() + 1 {
        return Err(FixError::Unfixable);
    }
    let child = &file[dir.len()];
    let widened = match lookup(root, &dir) {
        None => {
            return Err(FixError::Unfixable);
        },
        Some(d) => match &d.rules {
            None => {
                return Err(FixError::Unfixable);
            },
            Some(doc) => {
                let names = doc.names();
                if !doc.has_source(child.as_str()) || !contains_name(&names, target.as_str()) {
                    return Err(FixError::Unfixable);
                }
                doc.with_allowed(child.as_str(), target.as_str())
            },
        },
    };
    root.set_rules(&dir, Some(widened));
    Ok(())
}

/// Repairs a stale reference: the name that no directory has is removed
/// from the rules document that holds it. It fails, and changes nothing,
/// where the violation points to no rules document.
pub fn remove_reference_to_nonexistent_directory(
    root: &mut Directory,
    issue: &ReferenceToNonexistentDirectory,
) -> (r: Result<(), FixError>)
    ensures
        match stale_repair(old(root)@, issue.rules_file_path@, issue.nonexistent_directory@) {
            Some(repaired) => r is Ok && final(root)@ == repaired,
            None => r == Err::<(), FixError>(FixError::Unfixable) && final(root)@ == old(root)@,
        },
{
    let mut dir = path_components(issue.rules_file_path.as_str());
    if dir.len() == 0 {
        return Err(FixError::Unfixable);
    }
    let ghost file = dir.deep_view();
    dir.pop();
    proof {
        assert(dir.deep_view() =~= file.drop_last());
    }
    let cleaned = match lookup(root, &dir) {
        None => {
            return Err(FixError::Unfixable);
        },
        Some(d) => match &d.rules {
            None => {
                return Err(FixError::Unfixable);
            },
            Some(doc) => doc.without_name(issue.nonexistent_directory.as_str()),
        },
    };
    root.set_rules(&dir, Some(cleaned));
    Ok(())
}

/// Repairs the violations `found`, one after another, and says whether each
/// of them could be repaired. It stops at the first that cannot.
pub fn fix_violations(root: &mut Directory, found: &Vec<Violation>) -> (complete: bool)
    ensures
        (final(root)@, complete) == repair_all(old(root)@, found.deep_view()),
{
    let ghost all = found.deep_view();
    let ghost start = root@;
    let mut k: usize = 0;
    proof {
        assert(all.skip(0) =~= all);
    }
    while k < found.len()
        invariant
            k <= found.len(),
            all == found.deep_view(),
            start == old(root)@,
            repair_all(start, all) == repair_all(root@, all.skip(k as int)),
        decreases found.len() - k,
    {
        proof {
            assert(all.skip(k as int)[0] == all[k as int]);
            assert(all.skip(k as int).drop_first() =~= all.skip(k + 1));
        }
        let r = match &found[k] {
            Violation::DisallowedImportViolation(violation) => fix_violation(root, violation),
            Violation::ReferenceToNonexistentDirectory(issue) => {
                remove_reference_to_nonexistent_directory(root, issue)
            },
        };
        if r.is_err() {
            return false;
        }
        k += 1;
    }
    proof {
        assert(all.skip(k as int).len() == 0);
    }
    true
}

/// Runs the fix engine on one target: scans it in fail-fast mode and
/// repairs what the scan reports, until a scan finds nothing. `rounds`
/// counts the rounds of repair; the engine gives up when a scan still
/// finds violations after `MAX_FIX_ROUNDS` rounds.
pub fn fix_path(root: &mut Directory, target: &Vec<String>, rounds: &mut usize) -> (r: Result<
    (),
    FixError,
>)
    ensures
        final(root)@ == fix_target(old(root)@, target.deep_view(), *old(rounds) as nat).tree,
        *final(rounds) == fix_target(old(root)@, target.deep_view(), *old(rounds) as nat).rounds,
        r == fix_target(old(root)@, target.deep_view(), *old(rounds) as nat).result,
{
    let ghost goal = fix_target(root@, target.deep_view(), *rounds as nat);
    loop
        invariant
            goal == fix_target(old(root)@, target.deep_view(), *old(rounds) as nat),
            goal == fix_target(root@, target.deep_view(), *rounds as nat),
        decreases MAX_FIX_ROUNDS - *rounds,
    {
        let violations = match list_violations(root, target, true) {
            Ok(violations) => violations,
            Err(_) => {
                return Err(FixError::MissingTarget);
            },
        };
        if violations.len() == 0 {
            return Ok(());
        }
        let complete = fix_violations(root, &violations);
        if !complete {
            return Err(FixError::Unfixable);
        }
        if *rounds >= MAX_FIX_ROUNDS {
            return Err(FixError::DidNotConverge);
        }
        *rounds = *rounds + 1;
    }
}

/// Runs the fix engine on the targets `targets`, one after another: each
/// is scanned in fail-fast mode and what the scan reports is repaired,
/// until a scan finds nothing. The rounds of repair are counted over all
/// targets, and the engine gives up when a scan still finds violations
/// after `MAX_FIX_ROUNDS` rounds.
pub fn fix(root: &mut Directory, targets: &Vec<Vec<String>>) -> (r: Result<(), FixError>)
    ensures
        final(root)@ == fix_targets(old(root)@, targets.deep_view(), 0).tree,
        r == fix_targets(old(root)@, targets.deep_view(), 0).result,
{
    let ghost all = targets.deep_view();
    let ghost goal = fix_targets(root@, all, 0);
    let mut rounds: usize = 0;
    let mut k: usize = 0;
    proof {
        assert(all.skip(0) =~= all);
    }
    while k < targets.len()
        invariant
            k <= targets.len(),
            all == targets.deep_view(),
            goal == fix_targets(old(root)@, all, 0),
            goal == fix_targets(root@, all.skip(k as int), rounds as nat),
        decreases targets.len() - k,
    {
        proof {
            assert(all.skip(k as int)[0] == all[k as int]);
            assert(all.skip(k as int).drop_first() =~= all.skip(k + 1));
        }
        let r = fix_path(root, &targets[k], &mut rounds);
        match r {
            Ok(()) => {},
            Err(e) => {
                return Err(e);
            },
        }
        k += 1;
    }
    proof {
        assert(all.skip(k as int).len() == 0);
    }
    Ok(())
}

} // verus!
