//! What a scan of the module tree reports.
use vstd::prelude::*;

verus! {

/// A source file imports from a place that the rules forbid to it.
#[derive(Clone, Debug, PartialEq, Eq, Hash)]
pub struct DisallowedImportViolation {
    /// Path of the importing file, relative to the root of the tree.
    pub file_path: String,
    /// The disallowed prefix that the import falls under.
    pub disallowed_import: String,
    /// The import as it is written in the file.
    pub full_disallowed_import: String,
}

/// A rules document names a child directory that does not exist.
#[derive(Clone, Debug, PartialEq, Eq, Hash)]
pub struct ReferenceToNonexistentDirectory {
    /// Path of the rules file, relative to the root of the tree.
    pub rules_file_path: String,
    /// The name that the rules document uses and no child directory has.
    pub nonexistent_directory: String,
}

impl ReferenceToNonexistentDirectory {
    /// A copy of the finding.
    pub fn clone_issue(&self) -> (r: ReferenceToNonexistentDirectory)
        ensures
            r@ == self@,
    {
        ReferenceToNonexistentDirectory {
            rules_file_path: self.rules_file_path.clone(),
            nonexistent_directory: self.nonexistent_directory.clone(),
        }
    }
}

/// A finding of a scan.
#[derive(Clone, Debug, PartialEq, Eq, Hash)]
pub enum Violation {
    DisallowedImportViolation(DisallowedImportViolation),
    ReferenceToNonexistentDirectory(ReferenceToNonexistentDirectory),
}

/// A finding of a scan, as plain text values.
pub enum ViolationView {
    DisallowedImport {
        file_path: Seq<char>,
        disallowed_import: Seq<char>,
        full_disallowed_import: Seq<char>,
    },
    NonexistentDirectory { rules_file_path: Seq<char>, nonexistent_directory: Seq<char> },
}

impl View for DisallowedImportViolation {
    type V = ViolationView;

    open spec fn view(&self) -> ViolationView {
        ViolationView::DisallowedImport {
            file_path: self.file_path@,
            disallowed_import: self.disallowed_import@,
            full_disallowed_import: self.full_disallowed_import@,
        }
    }
}

impl View for ReferenceToNonexistentDirectory {
    type V = ViolationView;

    open spec fn view(&self) -> ViolationView {
        ViolationView::NonexistentDirectory {
            rules_file_path: self.rules_file_path@,
            nonexistent_directory: self.nonexistent_directory@,
        }
    }
}

impl View for Violation {
    type V = ViolationView;

    open spec fn view(&self) -> ViolationView {
        match self {
            Violation::DisallowedImportViolation(v) => v@,
            Violation::ReferenceToNonexistentDirectory(v) => v@,
        }
    }
}

impl DeepView for DisallowedImportViolation {
    type V = ViolationView;

    open spec fn deep_view(&self) -> ViolationView {
        self@
    }
}

impl DeepView for ReferenceToNonexistentDirectory {
    type V = ViolationView;

    open spec fn deep_view(&self) -> ViolationView {
        self@
    }
}

impl DeepView for Violation {
    type V = ViolationView;

    open spec fn deep_view(&self) -> ViolationView {
        self@
    }
}

impl Violation {
    /// A copy of the finding.
    pub fn clone_violation(&self) -> (r: Violation)
        ensures
            r@ == self@,
    {
        match self {
            Violation::DisallowedImportViolation(v) => Violation::DisallowedImportViolation(
                DisallowedImportViolation {
                    file_path: v.file_path.clone(),
                    disallowed_import: v.disallowed_import.clone(),
                    full_disallowed_import: v.full_disallowed_import.clone(),
                },
            ),
            Violation::ReferenceToNonexistentDirectory(v) => {
                Violation::ReferenceToNonexistentDirectory(v.clone_issue())
            },
        }
    }

    /// Whether two findings are the same: of the same kind, with the same
    /// texts.
    pub fn same_as(&self, other: &Violation) -> (r: bool)
        ensures
            r == (self@ == other@),
    {
        match (self, other) {
            (
                Violation::DisallowedImportViolation(a),
                Violation::DisallowedImportViolation(b),
            ) => {
                a.file_path == b.file_path && a.disallowed_import == b.disallowed_import
                    && a.full_disallowed_import == b.full_disallowed_import
            },
            (
                Violation::ReferenceToNonexistentDirectory(a),
                Violation::ReferenceToNonexistentDirectory(b),
            ) => {
                a.rules_file_path == b.rules_file_path && a.nonexistent_directory
                    == b.nonexistent_directory
            },
            _ => false,
        }
    }
}

/// The findings `all`, and after them those of `found` that are not there
/// yet, each once and in order of first appearance.
pub open spec fn merged(all: Seq<ViolationView>, found: Seq<ViolationView>) -> Seq<ViolationView>
    decreases found.len(),
{
    if found.len() == 0 {
        all
    } else {
        let before = merged(all, found.drop_last());
        if before.contains(found.last()) {
            before
        } else {
            before.push(found.last())
        }
    }
}

/// Merged findings are those of both lists, and none of them is there
/// twice if none was before.
pub proof fn lemma_merged(all: Seq<ViolationView>, found: Seq<ViolationView>, v: ViolationView)
    ensures
        merged(all, found).contains(v) <==> (all.contains(v) || found.contains(v)),
        all.no_duplicates() ==> merged(all, found).no_duplicates(),
    decreases found.len(),
{
    let both = merged(all, found);
    if found.len() > 0 {
        let rest = found.drop_last();
        let before = merged(all, rest);
        lemma_merged(all, rest, v);
        lemma_merged(all, rest, found.last());
        if both.contains(v) {
            let k = choose|k: int| 0 <= k < both.len() && both[k] == v;
            if k < before.len() {
                assert(before[k] == v);
                assert(before.contains(v));
                if rest.contains(v) {
                    let j = choose|j: int| 0 <= j < rest.len() && rest[j] == v;
                    assert(found[j] == v);
                }
            } else {
                assert(found[found.len() - 1] == v);
            }
        }
        if found.contains(v) {
            let j = choose|j: int| 0 <= j < found.len() && found[j] == v;
            if j < rest.len() {
                assert(rest[j] == v);
            }
        }
        if before.contains(v) {
            let k = choose|k: int| 0 <= k < before.len() && before[k] == v;
            assert(both[k] == v);
        }
        if v == found.last() && !before.contains(v) {
            assert(both[before.len() as int] == v);
        }
    }
}

/// Whether `v` is among `all`.
pub fn contains_violation(all: &Vec<Violation>, v: &Violation) -> (r: bool)
    ensures
        r == all.deep_view().contains(v@),
{
    let mut i: usize = 0;
    while i < all.len()
        invariant
            i <= all.len(),
            forall|k: int| 0 <= k < i ==> all.deep_view()[k] != v@,
        decreases all.len() - i,
    {
        if all[i].same_as(v) {
            assert(all.deep_view()[i as int] == v@);
            return true;
        }
        i += 1;
    }
    false
}

/// Adds to `all` the findings of `found` that are not there yet, so that
/// the scans of targets that overlap report each finding once.
pub fn merge_violations(all: &mut Vec<Violation>, found: &Vec<Violation>)
    ensures
        final(all).deep_view() == merged(old(all).deep_view(), found.deep_view()),
{
    let ghost start = all.deep_view();
    let ghost more = found.deep_view();
    let mut i: usize = 0;
    proof {
        assert(more.take(0) =~= Seq::<ViolationView>::empty());
    }
    while i < found.len()
        invariant
            i <= found.len(),
            more == found.deep_view(),
            start == old(all).deep_view(),
            all.deep_view() == merged(start, more.take(i as int)),
        decreases found.len() - i,
    {
        let ghost so_far = all.deep_view();
        proof {
            assert(more.take(i + 1).drop_last() =~= more.take(i as int));
            assert(more.take(i + 1).last() == more[i as int]);
        }
        if !contains_violation(all, &found[i]) {
            all.push(found[i].clone_violation());
            proof {
                assert(all.deep_view() =~= so_far.push(more[i as int]));
            }
        }
        i += 1;
    }
    proof {
        assert(more.take(i as int) =~= more);
    }
}

} // verus!
