//! An architectural-dependency linter for a module tree.
//!
//! Each directory may carry a rules document that says which of its child
//! directories may import from which others. The library resolves those
//! rules down the tree, scans source files for imports that break them,
//! renders the allowed dependencies as a diagram, and repairs violations by
//! widening the rules.
use vstd::prelude::*;

pub mod allows;
pub mod convergence;
pub mod diagram;
pub mod disallowed;
pub mod fix;
pub mod found;
pub mod names;
pub mod normalize;
pub mod order;
pub mod paths;
pub mod plain;
pub mod reach;
pub mod readme;
pub mod readme_laws;
pub mod relaxed;
pub mod rules;
pub mod siblings;
pub mod text;
pub mod tree;
pub mod ts_reader;
pub mod visit;
pub mod violations;

pub use crate::diagram::{get_allows, get_transitive_allows};
pub use crate::fix::{fix, fix_violation, remove_reference_to_nonexistent_directory, FixError};
pub use crate::readme::{update_diagrams_recursively, update_readme_with_diagram};
pub use crate::rules::RulesDocument;
pub use crate::tree::{Directory, SourceFile};
pub use crate::ts_reader::{extract_import, read_ts_imports};
pub use crate::violations::{DisallowedImportViolation, ReferenceToNonexistentDirectory, Violation};
pub use crate::visit::{list_violations, visit_path, ScanError};

verus! {

/// Name of the file that holds a directory's rules document.
pub const RULES_FILE_NAME: &'static str = ".deplint.rules.yml";

} // verus!
