use ts_deplint::disallowed::get_child_disallowed_imports;
use ts_deplint::fix::{fix, fix_path, fix_violation, fix_violations, remove_reference_to_nonexistent_directory, FixError, MAX_FIX_ROUNDS};
use ts_deplint::normalize::{canonicalize_import_path, text_is_blank};
use ts_deplint::paths::{join_components, path_components, path_starts_with};
use ts_deplint::rules::{AllowRule, RulesDocument};
use ts_deplint::tree::{lookup, Directory, SourceFile};
use ts_deplint::violations::{DisallowedImportViolation, ReferenceToNonexistentDirectory, Violation};
use ts_deplint::visit::{check_files_for_disallowed_imports, disallowed_imports_at, get_dir_rules_if_exists, list_violations, visit_directories, visit_path, ScanError};

fn strings(items: &[&str]) -> Vec<String> {
    items.iter().map(|s| s.to_string()).collect()
}

fn rules_from(pairs: &[(&str, &[&str])]) -> RulesDocument {
    RulesDocument {
        allow: pairs
            .iter()
            .map(|(source, targets)| AllowRule {
                source: source.to_string(),
                targets: targets.iter().map(|t| t.to_string()).collect(),
            })
            .collect(),
    }
}

fn file(name: &str, imports: &[&str]) -> SourceFile {
    SourceFile { name: name.to_string(), imports: strings(imports) }
}

fn dir(name: &str, files: Vec<SourceFile>, rules: Option<RulesDocument>, directories: Vec<Directory>) -> Directory {
    Directory { name: name.to_string(), files, rules, readme: None, directories }
}

fn import_violation(file_path: &str, prefix: &str, raw: &str) -> Violation {
    Violation::DisallowedImportViolation(DisallowedImportViolation {
        file_path: file_path.to_string(),
        disallowed_import: prefix.to_string(),
        full_disallowed_import: raw.to_string(),
    })
}

fn stale_violation(rules_file_path: &str, name: &str) -> Violation {
    Violation::ReferenceToNonexistentDirectory(ReferenceToNonexistentDirectory {
        rules_file_path: rules_file_path.to_string(),
        nonexistent_directory: name.to_string(),
    })
}

/// root
///   src            rules: entity -> [other-code], other-code -> [], ui -> [entity]
///     entity       entity.ts, sub-dir/
///     other-code   helper.ts
///     ui           view.ts
fn sample_tree() -> Directory {
    dir(
        "root",
        vec![file("package.json", &[])],
        None,
        vec![dir(
            "src",
            vec![],
            Some(rules_from(&[
                ("entity", &["other-code"]),
                ("other-code", &[]),
                ("ui", &["entity"]),
            ])),
            vec![
                dir(
                    "entity",
                    vec![file("entity.ts", &["./sub-dir/test-file", "../other-code/helper", "lodash"])],
                    None,
                    vec![dir("sub-dir", vec![file("test-file.ts", &["../../ui/view"])], None, vec![])],
                ),
                dir("other-code", vec![file("helper.ts", &["../entity/entity"])], None, vec![]),
                dir("ui", vec![file("view.ts", &["src/entity/entity", "src/other-code/helper"]), file("notes.md", &["../other-code/x"])], None, vec![]),
            ],
        )],
    )
}

#[test]
fn normalizer_resolves_relative_imports() {
    let root = sample_tree();
    let current = strings(&["src", "entity"]);
    assert_eq!(
        canonicalize_import_path("./sub-dir/test-file", &root, &current),
        "src/entity/sub-dir/test-file"
    );
    assert_eq!(
        canonicalize_import_path("../other-code/test-file", &root, &current),
        "src/other-code/test-file"
    );
}

#[test]
fn normalizer_leaves_root_relative_imports_unchanged() {
    let root = sample_tree();
    let current = strings(&["src", "entity"]);
    assert_eq!(
        canonicalize_import_path("src/other-code/test-file", &root, &current),
        "src/other-code/test-file"
    );
    assert_eq!(canonicalize_import_path("lodash", &root, &current), "lodash");
    assert_eq!(
        canonicalize_import_path("@package/with-symbol", &root, &current),
        "@package/with-symbol"
    );
}

#[test]
fn normalizer_passes_blank_imports_through() {
    let root = sample_tree();
    let current = strings(&["src"]);
    assert_eq!(canonicalize_import_path("", &root, &current), "");
    assert_eq!(canonicalize_import_path("   ", &root, &current), "   ");
    assert_eq!(canonicalize_import_path("\t\n", &root, &current), "\t\n");
    assert!(text_is_blank(""));
    assert!(text_is_blank(" \u{a0}\u{2003}"));
    assert!(!text_is_blank(" x "));
}

#[test]
fn normalizer_treats_escaping_imports_as_opaque() {
    let root = sample_tree();
    let current = strings(&["src"]);
    assert_eq!(canonicalize_import_path("../../outside/x", &root, &current), "../../outside/x");
    assert_eq!(canonicalize_import_path("/abs/path", &root, &current), "/abs/path");
}

#[test]
fn normalizer_treats_missing_directories_as_opaque() {
    let root = sample_tree();
    let current = strings(&["src", "entity"]);
    assert_eq!(canonicalize_import_path("./nope/x", &root, &current), "./nope/x");
    assert_eq!(canonicalize_import_path("./nope/../sub-dir/x", &root, &current), "./nope/../sub-dir/x");
}

#[test]
fn normalizer_cleans_redundant_parts() {
    let root = sample_tree();
    let current = strings(&["src", "entity"]);
    assert_eq!(canonicalize_import_path(".//sub-dir/./x", &root, &current), "src/entity/sub-dir/x");
    assert_eq!(canonicalize_import_path("./sub-dir/../../ui/view", &root, &current), "src/ui/view");
    assert_eq!(canonicalize_import_path("..", &root, &current), "src/entity");
    assert_eq!(canonicalize_import_path("../x", &root, &current), "src/x");
    assert_eq!(canonicalize_import_path(".", &root, &vec![]), "");
}

#[test]
fn path_components_follow_the_separators() {
    assert_eq!(path_components("a/b/c"), strings(&["a", "b", "c"]));
    assert_eq!(path_components("a//b/./c/"), strings(&["a", "b", "c"]));
    assert_eq!(path_components("./a/../b"), strings(&[".", "a", "..", "b"]));
    assert_eq!(path_components("/a"), strings(&["", "a"]));
    assert_eq!(path_components(""), strings(&[]));
    assert_eq!(join_components(&strings(&["a", "b", "c"])), "a/b/c");
    assert_eq!(join_components(&strings(&["a"])), "a");
    assert_eq!(join_components(&strings(&[])), "");
}

#[test]
fn path_prefix_is_by_component() {
    assert!(path_starts_with("src/entity/x", "src/entity"));
    assert!(path_starts_with("src/entity", "src/entity"));
    assert!(!path_starts_with("src/entity2/x", "src/entity"));
    assert!(!path_starts_with("src", "src/entity"));
    assert!(path_starts_with("src//entity/./x", "src/entity/"));
    assert!(!path_starts_with("./src/entity", "src"));
}

#[test]
fn resolver_keeps_parent_for_unlisted_child() {
    let rules = Some(rules_from(&[("a", &["b"]), ("b", &[])]));
    let parent = strings(&["lib/x"]);
    assert_eq!(
        get_child_disallowed_imports(&strings(&["src"]), &parent, &rules, "c"),
        strings(&["lib/x"])
    );
    assert_eq!(
        get_child_disallowed_imports(&strings(&["src"]), &parent, &None, "a"),
        strings(&["lib/x"])
    );
}

#[test]
fn resolver_adds_siblings_that_are_not_allowed() {
    let rules = Some(rules_from(&[("a", &["b"]), ("b", &[]), ("c", &["a", "b"])]));
    let parent = strings(&["lib/x"]);
    let current = strings(&["src"]);
    assert_eq!(
        get_child_disallowed_imports(&current, &parent, &rules, "a"),
        strings(&["lib/x", "src/c"])
    );
    assert_eq!(
        get_child_disallowed_imports(&current, &parent, &rules, "b"),
        strings(&["lib/x", "src/a", "src/c"])
    );
    assert_eq!(
        get_child_disallowed_imports(&current, &parent, &rules, "c"),
        strings(&["lib/x"])
    );
}

#[test]
fn resolver_at_the_root_uses_bare_names() {
    let rules = Some(rules_from(&[("a", &[]), ("b", &[])]));
    assert_eq!(get_child_disallowed_imports(&vec![], &vec![], &rules, "a"), strings(&["b"]));
}

#[test]
fn resolver_deny_all_forbids_every_sibling() {
    let rules = Some(rules_from(&[("a", &["-"]), ("b", &["a"]), ("c", &["-"])]));
    assert_eq!(
        get_child_disallowed_imports(&strings(&["src"]), &vec![], &rules, "a"),
        strings(&["src/b", "src/c"])
    );
}

#[test]
fn resolver_adds_no_prefix_twice() {
    let rules = Some(rules_from(&[("a", &[]), ("b", &["a"]), ("c", &["b"])]));
    assert_eq!(
        get_child_disallowed_imports(&strings(&["src"]), &strings(&["src/b"]), &rules, "a"),
        strings(&["src/b", "src/c"])
    );
}

#[test]
fn disallowed_set_grows_on_the_way_down() {
    let mut root = sample_tree();
    root.rules = Some(rules_from(&[("src", &[]), ("vendor", &[])]));
    let at_src = disallowed_imports_at(&root, &strings(&["src"]));
    let at_entity = disallowed_imports_at(&root, &strings(&["src", "entity"]));
    let at_sub = disallowed_imports_at(&root, &strings(&["src", "entity", "sub-dir"]));
    assert_eq!(at_src, strings(&["vendor"]));
    assert_eq!(at_entity, strings(&["vendor", "src/ui"]));
    assert_eq!(at_sub, at_entity);
    assert_eq!(disallowed_imports_at(&root, &vec![]), strings(&[]));
}

#[test]
fn check_files_reports_each_matching_prefix() {
    let root = sample_tree();
    let current = strings(&["src", "ui"]);
    let files = vec![
        file("view.ts", &["src/entity/entity", "src/other-code/helper"]),
        file("notes.md", &["src/other-code/x"]),
    ];
    let disallowed = strings(&["src", "src/other-code"]);
    let mut violations = Vec::new();
    check_files_for_disallowed_imports(&mut violations, &root, &disallowed, &current, &files, false);
    assert_eq!(
        violations,
        vec![
            import_violation("src/ui/view.ts", "src", "src/entity/entity"),
            import_violation("src/ui/view.ts", "src", "src/other-code/helper"),
            import_violation("src/ui/view.ts", "src/other-code", "src/other-code/helper"),
        ]
    );
    let mut first_only = Vec::new();
    check_files_for_disallowed_imports(&mut first_only, &root, &disallowed, &current, &files, true);
    assert_eq!(first_only, vec![import_violation("src/ui/view.ts", "src", "src/entity/entity")]);
}

#[test]
fn scan_finds_all_violations() {
    let root = sample_tree();
    let found = list_violations(&root, &vec![], false).unwrap();
    assert_eq!(
        found,
        vec![
            import_violation("src/entity/sub-dir/test-file.ts", "src/ui", "../../ui/view"),
            import_violation("src/other-code/helper.ts", "src/entity", "../entity/entity"),
            import_violation("src/ui/view.ts", "src/other-code", "src/other-code/helper"),
        ]
    );
}

#[test]
fn scan_fail_fast_stops_at_the_first() {
    let root = sample_tree();
    let found = list_violations(&root, &vec![], true).unwrap();
    assert_eq!(
        found,
        vec![import_violation("src/entity/sub-dir/test-file.ts", "src/ui", "../../ui/view")]
    );
}

#[test]
fn scan_of_a_subdirectory_applies_the_rules_above() {
    let root = sample_tree();
    assert_eq!(
        list_violations(&root, &strings(&["src", "other-code"]), false).unwrap(),
        vec![import_violation("src/other-code/helper.ts", "src/entity", "../entity/entity")]
    );
    assert_eq!(list_violations(&root, &strings(&["src", "entity", "sub-dir"]), true).unwrap().len(), 1);
}

#[test]
fn scan_of_a_file_target() {
    let root = sample_tree();
    assert_eq!(
        list_violations(&root, &strings(&["src", "ui", "view.ts"]), false).unwrap(),
        vec![import_violation("src/ui/view.ts", "src/other-code", "src/other-code/helper")]
    );
    assert_eq!(list_violations(&root, &strings(&["src", "ui", "notes.md"]), false).unwrap(), vec![]);
}

#[test]
fn scan_of_a_missing_target_fails() {
    let root = sample_tree();
    assert_eq!(
        list_violations(&root, &strings(&["src", "nowhere"]), false),
        Err(ScanError::MissingDirectory)
    );
    let mut violations = vec![stale_violation("x", "y")];
    assert_eq!(
        visit_path(&mut violations, &root, &vec![], &strings(&["nope"]), false),
        Err(ScanError::MissingDirectory)
    );
    assert_eq!(violations, vec![stale_violation("x", "y")]);
    assert_eq!(
        visit_directories(&mut violations, &root, &vec![], &strings(&["nope"]), false),
        Err(ScanError::MissingDirectory)
    );
}

#[test]
fn visit_path_appends_to_what_is_there() {
    let root = sample_tree();
    let mut violations = vec![stale_violation("x", "y")];
    let disallowed = strings(&["src/entity"]);
    visit_path(&mut violations, &root, &disallowed, &strings(&["src", "other-code"]), false).unwrap();
    assert_eq!(
        violations,
        vec![
            stale_violation("x", "y"),
            import_violation("src/other-code/helper.ts", "src/entity", "../entity/entity"),
        ]
    );
}

#[test]
fn visit_path_fail_fast_with_earlier_findings_checks_files_only() {
    let root = sample_tree();
    let mut violations = vec![stale_violation("x", "y")];
    visit_path(&mut violations, &root, &vec![], &strings(&["src"]), true).unwrap();
    assert_eq!(violations, vec![stale_violation("x", "y")]);
}

#[test]
fn stale_references_are_reported() {
    let mut root = sample_tree();
    root.directories[0].rules = Some(rules_from(&[
        ("entity", &["gone", "other-code"]),
        ("missing", &["-"]),
        ("ui", &["gone"]),
    ]));
    let (rules, issues) = get_dir_rules_if_exists(&root, &strings(&["src"]));
    assert!(rules.is_some());
    assert_eq!(
        issues,
        vec![
            ReferenceToNonexistentDirectory {
                rules_file_path: "src/.deplint.rules.yml".to_string(),
                nonexistent_directory: "gone".to_string(),
            },
            ReferenceToNonexistentDirectory {
                rules_file_path: "src/.deplint.rules.yml".to_string(),
                nonexistent_directory: "missing".to_string(),
            },
        ]
    );
    let (no_rules, none) = get_dir_rules_if_exists(&root, &strings(&["src", "entity"]));
    assert!(no_rules.is_none());
    assert!(none.is_empty());
    let (nowhere, nothing) = get_dir_rules_if_exists(&root, &strings(&["nope"]));
    assert!(nowhere.is_none());
    assert!(nothing.is_empty());
}

#[test]
fn stale_references_at_the_root_have_a_bare_file_path() {
    let mut root = sample_tree();
    root.rules = Some(rules_from(&[("src", &["lib"])]));
    let found = list_violations(&root, &vec![], true).unwrap();
    assert_eq!(found, vec![stale_violation(".deplint.rules.yml", "lib")]);
}

#[test]
fn rules_document_stale_and_repair() {
    let doc = rules_from(&[("a", &["b", "gone"]), ("gone", &["a"]), ("b", &["-", "gone"])]);
    assert_eq!(doc.stale_references(&strings(&["a", "b"])), strings(&["gone"]));
    assert_eq!(doc.stale_references(&strings(&["a", "b", "gone"])), strings(&[]));
    assert_eq!(
        doc.without_name("gone"),
        rules_from(&[("a", &["b"]), ("b", &["-"])])
    );
    assert_eq!(doc.without_name("zzz"), doc);
    assert_eq!(
        doc.with_allowed("b", "a"),
        rules_from(&[("a", &["b", "gone"]), ("gone", &["a"]), ("b", &["gone", "a"])])
    );
    assert_eq!(doc.with_allowed("a", "b"), doc);
    assert_eq!(doc.with_allowed("nope", "b"), doc);
    assert_eq!(doc.names(), strings(&["a", "b", "gone", "gone", "a", "b", "-", "gone"]));
    assert!(doc.has_source("gone"));
    assert!(!doc.has_source("-"));
    assert!(doc.allows("b", "-"));
    assert!(!doc.allows("b", "a"));
}

#[test]
fn fix_violation_widens_the_governing_rule() {
    let mut root = sample_tree();
    let violation = DisallowedImportViolation {
        file_path: "src/entity/sub-dir/test-file.ts".to_string(),
        disallowed_import: "src/ui".to_string(),
        full_disallowed_import: "../../ui/view".to_string(),
    };
    assert_eq!(fix_violation(&mut root, &violation), Ok(()));
    assert_eq!(
        root.directories[0].rules,
        Some(rules_from(&[
            ("entity", &["other-code", "ui"]),
            ("other-code", &[]),
            ("ui", &["entity"]),
        ]))
    );
    assert_eq!(root.directories[0].directories.len(), 3);
    assert_eq!(root.rules, None);
}

#[test]
fn fix_violation_fails_where_no_rule_governs() {
    let mut root = sample_tree();
    let before = sample_tree();
    let cases = [
        ("src/entity/entity.ts", ""),
        ("src/entity/entity.ts", "lib/ui"),
        ("src/entity.ts", "src/ui"),
        ("other/entity/entity.ts", "src/ui"),
        ("src/entity/entity.ts", "src/unknown"),
        ("src/entity/sub-dir/x.ts", "src/entity/sub-dir"),
    ];
    for (file_path, prefix) in cases {
        let violation = DisallowedImportViolation {
            file_path: file_path.to_string(),
            disallowed_import: prefix.to_string(),
            full_disallowed_import: "x".to_string(),
        };
        assert_eq!(fix_violation(&mut root, &violation), Err(FixError::Unfixable));
        assert_eq!(root, before);
    }
}

#[test]
fn remove_reference_removes_exactly_that_name() {
    let mut root = sample_tree();
    root.directories[0].rules = Some(rules_from(&[
        ("entity", &["gone", "other-code"]),
        ("gone", &["ui"]),
        ("ui", &["gone", "entity"]),
    ]));
    let issue = ReferenceToNonexistentDirectory {
        rules_file_path: "src/.deplint.rules.yml".to_string(),
        nonexistent_directory: "gone".to_string(),
    };
    assert_eq!(remove_reference_to_nonexistent_directory(&mut root, &issue), Ok(()));
    assert_eq!(
        root.directories[0].rules,
        Some(rules_from(&[("entity", &["other-code"]), ("ui", &["entity"])]))
    );
    let nowhere = ReferenceToNonexistentDirectory {
        rules_file_path: "src/entity/.deplint.rules.yml".to_string(),
        nonexistent_directory: "gone".to_string(),
    };
    assert_eq!(
        remove_reference_to_nonexistent_directory(&mut root, &nowhere),
        Err(FixError::Unfixable)
    );
}

#[test]
fn fix_reaches_a_clean_scan() {
    let mut root = sample_tree();
    assert_eq!(list_violations(&root, &vec![], false).unwrap().len(), 3);
    assert_eq!(fix(&mut root, &vec![vec![]]), Ok(()));
    assert_eq!(list_violations(&root, &vec![], false).unwrap(), vec![]);
    assert_eq!(
        root.directories[0].rules,
        Some(rules_from(&[
            ("entity", &["other-code", "ui"]),
            ("other-code", &["entity"]),
            ("ui", &["entity", "other-code"]),
        ]))
    );
}

#[test]
fn fix_counts_one_round_for_each_violation() {
    let mut root = sample_tree();
    let mut rounds = 0;
    assert_eq!(fix_path(&mut root, &vec![], &mut rounds), Ok(()));
    assert_eq!(rounds, 3);
    assert_eq!(fix_path(&mut root, &vec![], &mut rounds), Ok(()));
    assert_eq!(rounds, 3);
}

#[test]
fn fix_removes_stale_references() {
    let mut root = sample_tree();
    root.directories[0].rules = Some(rules_from(&[
        ("entity", &["other-code", "ui", "gone"]),
        ("away", &["-"]),
    ]));
    assert_eq!(fix(&mut root, &vec![strings(&["src"])]), Ok(()));
    assert_eq!(
        root.directories[0].rules,
        Some(rules_from(&[("entity", &["other-code", "ui"])]))
    );
}

#[test]
fn fix_of_a_missing_target_fails() {
    let mut root = sample_tree();
    assert_eq!(fix(&mut root, &vec![strings(&["nope"])]), Err(FixError::MissingTarget));
    assert_eq!(root, sample_tree());
}

#[test]
fn fix_gives_up_on_what_it_cannot_repair() {
    let mut root = sample_tree();
    let found = vec![import_violation("src/entity/entity.ts", "elsewhere/x", "elsewhere/x/y")];
    assert!(!fix_violations(&mut root, &found));
    assert_eq!(root, sample_tree());
}

#[test]
fn fix_gives_up_after_the_ceiling() {
    let mut root = sample_tree();
    let mut rounds = MAX_FIX_ROUNDS;
    assert_eq!(fix_path(&mut root, &vec![], &mut rounds), Err(FixError::DidNotConverge));
    assert_eq!(rounds, MAX_FIX_ROUNDS);
    assert_eq!(list_violations(&root, &vec![], false).unwrap().len(), 2);
    let mut last = MAX_FIX_ROUNDS - 1;
    let mut other = sample_tree();
    assert_eq!(fix_path(&mut other, &vec![], &mut last), Err(FixError::DidNotConverge));
    assert_eq!(last, MAX_FIX_ROUNDS);
    assert_eq!(list_violations(&other, &vec![], false).unwrap().len(), 1);
}

#[test]
fn lookup_follows_names() {
    let root = sample_tree();
    assert_eq!(lookup(&root, &vec![]).unwrap().name, "root");
    assert_eq!(lookup(&root, &strings(&["src", "entity", "sub-dir"])).unwrap().name, "sub-dir");
    assert!(lookup(&root, &strings(&["src", "sub-dir"])).is_none());
}

#[test]
fn set_rules_replaces_one_document() {
    let mut root = sample_tree();
    root.set_rules(&strings(&["src", "ui"]), Some(rules_from(&[("x", &["y"])])));
    assert_eq!(root.directories[0].directories[2].rules, Some(rules_from(&[("x", &["y"])])));
    assert_eq!(root.directories[0].rules, sample_tree().directories[0].rules);
    root.set_rules(&strings(&["nope"]), None);
    root.set_rules(&strings(&["src"]), None);
    assert_eq!(root.directories[0].rules, None);
}

#[test]
fn fix_over_several_targets() {
    let mut root = sample_tree();
    let targets = vec![strings(&["src", "ui"]), strings(&["src", "other-code"]), strings(&["src", "ui", "view.ts"])];
    assert_eq!(fix(&mut root, &targets), Ok(()));
    assert_eq!(list_violations(&root, &strings(&["src", "ui"]), false).unwrap(), vec![]);
    assert_eq!(list_violations(&root, &strings(&["src", "other-code"]), false).unwrap(), vec![]);
    assert_eq!(list_violations(&root, &vec![], false).unwrap().len(), 1);
}

#[test]
fn a_rule_that_names_a_path_denies_nothing() {
    let mut root = dir(
        "root",
        vec![],
        Some(rules_from(&[("x", &[]), ("x/y", &[]), ("..", &[]), ("", &[])])),
        vec![dir(
            "x",
            vec![],
            Some(rules_from(&[("w", &["y"])])),
            vec![
                dir("w", vec![file("f.ts", &["../y/z"])], None, vec![]),
                dir("y", vec![], None, vec![]),
            ],
        )],
    );
    assert_eq!(disallowed_imports_at(&root, &strings(&["x"])), strings(&[]));
    let target = strings(&["x"]);
    assert_eq!(list_violations(&root, &target, false).unwrap(), vec![]);
    assert_eq!(
        list_violations(&root, &vec![], false).unwrap(),
        vec![
            stale_violation(".deplint.rules.yml", "x/y"),
            stale_violation(".deplint.rules.yml", ".."),
            stale_violation(".deplint.rules.yml", ""),
        ]
    );
    assert_eq!(fix(&mut root, &vec![vec![]]), Ok(()));
    assert_eq!(root.rules, Some(rules_from(&[("x", &[])])));
}

#[test]
fn fix_needs_directory_names_that_are_plain() {
    let tree = || {
        dir(
            "root",
            vec![],
            Some(rules_from(&[("x/y", &[]), ("x", &["z"]), ("z", &["x", "x/y"])])),
            vec![
                dir("x/y", vec![file("f.ts", &["z/q"])], None, vec![]),
                dir("x", vec![], None, vec![]),
                dir("z", vec![], None, vec![]),
            ],
        )
    };
    let mut root = tree();
    assert!(!ts_deplint::plain::has_plain_names(&root));
    assert!(ts_deplint::plain::has_plain_names(&sample_tree()));
    assert_eq!(
        list_violations(&root, &vec![], false).unwrap(),
        vec![import_violation("x/y/f.ts", "z", "z/q")]
    );
    assert_eq!(fix(&mut root, &vec![vec![]]), Err(FixError::DidNotConverge));
    assert_eq!(root, tree());
}

#[test]
fn merge_violations_keeps_each_finding_once() {
    let a = import_violation("src/a.ts", "src/b", "./b");
    let b = import_violation("src/a.ts", "src/b", "../src/b");
    let c = stale_violation("src/.deplint.rules.yml", "gone");
    let mut all = vec![a.clone()];
    ts_deplint::violations::merge_violations(&mut all, &vec![b.clone(), a.clone(), c.clone(), b.clone()]);
    assert_eq!(all, vec![a.clone(), b.clone(), c.clone()]);
    assert!(a.same_as(&a.clone_violation()));
    assert!(!a.same_as(&b));
    assert!(!a.same_as(&c));
    assert!(c.same_as(&c));
    assert!(ts_deplint::violations::contains_violation(&all, &c));
    assert!(!ts_deplint::violations::contains_violation(&vec![a, b], &c));
}

#[test]
fn overlapping_targets_report_each_violation_once() {
    let root = sample_tree();
    let mut all = Vec::new();
    for target in [strings(&["src"]), strings(&["src", "ui"]), vec![]] {
        let found = list_violations(&root, &target, false).unwrap();
        ts_deplint::violations::merge_violations(&mut all, &found);
    }
    assert_eq!(all.len(), 3);
}

#[test]
fn fail_fast_reports_one_stale_reference_only() {
    let root = dir("root", vec![], Some(rules_from(&[("a", &["b"])])), vec![]);
    let mut found = Vec::new();
    visit_path(&mut found, &root, &vec![], &vec![], true).unwrap();
    assert_eq!(found, vec![stale_violation(".deplint.rules.yml", "a")]);
    assert_eq!(
        list_violations(&root, &vec![], true).unwrap(),
        vec![stale_violation(".deplint.rules.yml", "a")]
    );
    assert_eq!(
        list_violations(&root, &vec![], false).unwrap(),
        vec![
            stale_violation(".deplint.rules.yml", "a"),
            stale_violation(".deplint.rules.yml", "b"),
        ]
    );
    let mut more = Vec::new();
    visit_directories(&mut more, &root, &vec![], &vec![], true).unwrap();
    assert_eq!(more.len(), 1);
}

#[test]
fn fix_repairs_stale_references_one_round_each() {
    let mut root = dir("root", vec![], Some(rules_from(&[("a", &["b"]), ("c", &[])])), vec![]);
    let mut rounds = 0;
    assert_eq!(list_violations(&root, &vec![], false).unwrap().len(), 3);
    assert_eq!(fix_path(&mut root, &vec![], &mut rounds), Ok(()));
    assert_eq!(rounds, 2);
    assert_eq!(root.rules, Some(rules_from(&[])));
}

#[test]
fn the_order_of_siblings_changes_no_finding() {
    let mut shuffled = sample_tree();
    shuffled.directories[0].directories.reverse();
    shuffled.directories[0].directories[2].directories.reverse();
    let mut here = list_violations(&sample_tree(), &vec![], false).unwrap();
    let mut there = list_violations(&shuffled, &vec![], false).unwrap();
    assert_ne!(here, there);
    let key = |v: &Violation| format!("{:?}", v);
    here.sort_by_key(key);
    there.sort_by_key(key);
    assert_eq!(here, there);
}
