use ts_deplint::allows::AllowsMap;
use ts_deplint::diagram::{get_allows, get_transitive_allows, reachable_from, render_diagram};
use ts_deplint::names::NameSet;
use ts_deplint::readme::{get_other_readme_lines, lines_of, update_diagrams_recursively, update_readme_with_diagram};
use ts_deplint::rules::{AllowRule, RulesDocument};
use ts_deplint::tree::Directory;

fn allows_from(pairs: &[(&str, &[&str])]) -> AllowsMap {
    let mut map = AllowsMap::new();
    for (source, targets) in pairs {
        map.insert_source(source.to_string());
        for target in targets.iter() {
            map.insert(source.to_string(), target.to_string());
        }
    }
    map
}

fn rules_from(pairs: &[(&str, &[&str])]) -> RulesDocument {
    RulesDocument {
        allow: pairs
            .iter()
            .map(|(source, targets)| AllowRule {
                source: source.to_string(),
                targets: targets.iter().map(|t| t.to_string()).collect(),
            })
            .collect(),
    }
}

fn names(set: &NameSet) -> Vec<String> {
    set.names().clone()
}

fn strings(items: &[&str]) -> Vec<String> {
    items.iter().map(|s| s.to_string()).collect()
}

#[test]
fn test_get_transitive_allows() {
    assert_eq!(
        get_transitive_allows(&allows_from(&[("a", &["b"]), ("b", &["c"])])),
        allows_from(&[("a", &["b", "c"]), ("b", &["c"])])
    );
    assert_eq!(
        get_transitive_allows(&allows_from(&[("a", &["b"]), ("b", &["c"]), ("c", &["a"])])),
        allows_from(&[
            ("a", &["a", "b", "c"]),
            ("b", &["a", "b", "c"]),
            ("c", &["a", "b", "c"]),
        ])
    );
}

#[test]
fn closure_of_empty_graph_is_empty() {
    let closure = get_transitive_allows(&AllowsMap::new());
    assert!(closure.is_empty());
    assert_eq!(closure.len(), 0);
}

#[test]
fn closure_is_not_reflexive_without_a_cycle() {
    let direct = allows_from(&[("a", &["b"]), ("b", &[])]);
    let closure = get_transitive_allows(&direct);
    assert_eq!(names(closure.get("a").unwrap()), strings(&["b"]));
    assert_eq!(names(closure.get("b").unwrap()), strings(&[]));
    assert!(closure.get("c").is_none());
}

#[test]
fn closure_follows_targets_that_are_no_sources() {
    let direct = allows_from(&[("a", &["b", "x"]), ("b", &["y"])]);
    assert_eq!(names(&reachable_from(&direct, 0)), strings(&["b", "x", "y"]));
    assert_eq!(names(&reachable_from(&direct, 1)), strings(&["y"]));
}

#[test]
fn closure_of_self_loop() {
    let direct = allows_from(&[("a", &["a"])]);
    let closure = get_transitive_allows(&direct);
    assert_eq!(names(closure.get("a").unwrap()), strings(&["a"]));
}

#[test]
fn closure_of_two_cycles_sharing_a_node() {
    let direct = allows_from(&[("a", &["b"]), ("b", &["a", "c"]), ("c", &["b"]), ("d", &["a"])]);
    let closure = get_transitive_allows(&direct);
    assert_eq!(names(closure.get("a").unwrap()), strings(&["a", "b", "c"]));
    assert_eq!(names(closure.get("c").unwrap()), strings(&["a", "b", "c"]));
    assert_eq!(names(closure.get("d").unwrap()), strings(&["a", "b", "c"]));
}

#[test]
fn allows_map_keeps_sources_and_targets_sorted() {
    let map = allows_from(&[("zeta", &["b", "a", "b"]), ("alpha", &["z"])]);
    assert_eq!(map.len(), 2);
    assert_eq!(map.source(0), "alpha");
    assert_eq!(map.source(1), "zeta");
    assert_eq!(names(map.targets(1)), strings(&["a", "b"]));
    assert_eq!(map.find("zeta"), Some(1));
    assert_eq!(map.find("nope"), None);
}

#[test]
fn name_set_insert_reports_new_names() {
    let mut set = NameSet::new();
    assert!(set.insert("b".to_string()));
    assert!(set.insert("a".to_string()));
    assert!(!set.insert("b".to_string()));
    assert!(set.insert("ab".to_string()));
    assert_eq!(names(&set), strings(&["a", "ab", "b"]));
    assert!(set.contains("ab"));
    assert!(!set.contains("c"));
    assert_eq!(set.len(), 3);
    assert_eq!(set.get(1), "ab");
    assert_eq!(names(&set.clone()), strings(&["a", "ab", "b"]));
}

#[test]
fn get_allows_sorts_and_drops_the_deny_mark() {
    let rules = rules_from(&[("web", &["core", "api", "core"]), ("api", &["-"]), ("core", &[])]);
    let allows = get_allows(&rules);
    assert_eq!(
        allows,
        allows_from(&[("api", &[]), ("core", &[]), ("web", &["api", "core"])])
    );
}

#[test]
fn get_allows_merges_rules_with_the_same_source() {
    let rules = rules_from(&[("a", &["b"]), ("a", &["c"])]);
    assert_eq!(get_allows(&rules), allows_from(&[("a", &["b", "c"])]));
}

#[test]
fn render_without_cycles() {
    let allows = allows_from(&[("a", &["b", "c"]), ("b", &["c"])]);
    let expected = strings(&[
        "```mermaid",
        "%%dep",
        "graph TD",
        "  subgraph \" \"",
        "  a --> b",
        "  a --> c",
        "  b --> c",
        "  end",
        "```",
    ]);
    assert_eq!(render_diagram(&allows, false), expected);
    assert_eq!(render_diagram(&allows, true), expected);
}

#[test]
fn render_marks_circular_edges_by_position() {
    let allows = allows_from(&[("a", &["b", "d"]), ("b", &["c"]), ("c", &["a"])]);
    assert_eq!(
        render_diagram(&allows, true),
        strings(&[
            "```mermaid",
            "%%dep",
            "graph TD",
            "  subgraph \" \"",
            "  a --> b",
            "  a --> d",
            "  b --> c",
            "  c --> a",
            "  end",
            "linkStyle 0,2,3 stroke:red;",
            "```",
        ])
    );
    assert_eq!(
        render_diagram(&allows, false),
        strings(&[
            "```mermaid",
            "%%dep",
            "graph TD",
            "  subgraph \" \"",
            "  a --> b",
            "  a --> d",
            "  b --> c",
            "  c --> a",
            "  end",
            "```",
        ])
    );
}

#[test]
fn render_numbers_edges_past_nine() {
    let mut pairs: Vec<(String, Vec<String>)> = Vec::new();
    for i in 0..12 {
        pairs.push((format!("n{:02}", i), vec![format!("n{:02}", (i + 1) % 12)]));
    }
    let mut allows = AllowsMap::new();
    for (s, ts) in &pairs {
        for t in ts {
            allows.insert(s.clone(), t.clone());
        }
    }
    let lines = render_diagram(&allows, true);
    assert_eq!(lines[lines.len() - 2], "linkStyle 0,1,2,3,4,5,6,7,8,9,10,11 stroke:red;");
}

#[test]
fn render_skips_the_deny_mark() {
    let allows = allows_from(&[("a", &["-"]), ("b", &["-", "a"])]);
    assert_eq!(
        render_diagram(&allows, true),
        strings(&[
            "```mermaid",
            "%%dep",
            "graph TD",
            "  subgraph \" \"",
            "  b --> a",
            "  end",
            "```",
        ])
    );
}

#[test]
fn render_twice_gives_the_same_lines() {
    let allows = allows_from(&[("a", &["b"]), ("b", &["a"])]);
    assert_eq!(render_diagram(&allows, true), render_diagram(&allows, true));
    assert_eq!(render_diagram(&allows, false), render_diagram(&allows, false));
}

#[test]
fn lines_of_follows_line_endings() {
    assert_eq!(lines_of(""), strings(&[]));
    assert_eq!(lines_of("a"), strings(&["a"]));
    assert_eq!(lines_of("a\n"), strings(&["a"]));
    assert_eq!(lines_of("a\nb"), strings(&["a", "b"]));
    assert_eq!(lines_of("a\r\nb\r\n"), strings(&["a\r", "b\r"]));
    assert_eq!(lines_of("a\n\n"), strings(&["a", ""]));
    assert_eq!(lines_of("\n"), strings(&[""]));
    assert_eq!(lines_of("a\rb\n"), strings(&["a\rb"]));
    assert_eq!(lines_of("a\r"), strings(&["a\r"]));
}

#[test]
fn other_readme_lines_of_missing_file() {
    assert_eq!(get_other_readme_lines(&None), (strings(&[]), strings(&[])));
}

#[test]
fn other_readme_lines_without_block() {
    let readme = Some("# Title\n\nProse.\n".to_string());
    assert_eq!(
        get_other_readme_lines(&readme),
        (strings(&["# Title", "", "Prose."]), strings(&[]))
    );
}

#[test]
fn other_readme_lines_around_block() {
    let readme = Some(
        "# Title\nbefore\n```mermaid\n%%dep\ngraph TD\n  a --> b\n```\nafter 1\nafter 2\n"
            .to_string(),
    );
    assert_eq!(
        get_other_readme_lines(&readme),
        (strings(&["# Title", "before"]), strings(&["after 1", "after 2"]))
    );
}

#[test]
fn other_readme_lines_with_sigil_on_first_line() {
    let readme = Some("%%dep\nx\n```\nafter\n".to_string());
    assert_eq!(get_other_readme_lines(&readme), (strings(&[]), strings(&["after"])));
}

#[test]
fn other_readme_lines_with_unclosed_block() {
    let readme = Some("intro\n```mermaid\n%%dep\ngraph TD\n".to_string());
    assert_eq!(get_other_readme_lines(&readme), (strings(&["intro"]), strings(&[])));
}

#[test]
fn update_readme_creates_block_for_missing_file() {
    let rules = rules_from(&[("a", &["b"])]);
    assert_eq!(
        update_readme_with_diagram(&rules, &None, false),
        Some("```mermaid\n%%dep\ngraph TD\n  subgraph \" \"\n  a --> b\n  end\n```\n".to_string())
    );
}

#[test]
fn update_readme_without_rules_writes_nothing() {
    let rules = rules_from(&[]);
    assert_eq!(update_readme_with_diagram(&rules, &Some("text\n".to_string()), true), None);
}

#[test]
fn update_readme_appends_block_at_end() {
    let rules = rules_from(&[("a", &["b"])]);
    assert_eq!(
        update_readme_with_diagram(&rules, &Some("# Title\n\nProse".to_string()), false),
        Some(
            "# Title\n\nProse\n```mermaid\n%%dep\ngraph TD\n  subgraph \" \"\n  a --> b\n  end\n```\n"
                .to_string()
        )
    );
}

#[test]
fn update_readme_replaces_only_the_block() {
    let rules = rules_from(&[("a", &["b"]), ("b", &["a"])]);
    let old = "# Title\nbefore\n```mermaid\n%%dep\ngraph TD\n  old --> edge\n```\n\nafter\n";
    let new = update_readme_with_diagram(&rules, &Some(old.to_string()), true).unwrap();
    assert_eq!(
        new,
        "# Title\nbefore\n```mermaid\n%%dep\ngraph TD\n  subgraph \" \"\n  a --> b\n  b --> a\n  end\nlinkStyle 0,1 stroke:red;\n```\n\nafter\n"
    );
    let again = update_readme_with_diagram(&rules, &Some(new.clone()), true).unwrap();
    assert_eq!(again, new);
}

#[test]
fn update_readme_ends_with_exactly_one_newline() {
    let rules = rules_from(&[("a", &["b"])]);
    let old = "```mermaid\n%%dep\n```\nafter\n\n\n\n";
    let new = update_readme_with_diagram(&rules, &Some(old.to_string()), false).unwrap();
    assert!(new.ends_with("```\nafter\n"));
    assert!(!new.ends_with("\n\n"));
}

fn dir(name: &str, rules: Option<RulesDocument>, readme: Option<&str>, directories: Vec<Directory>) -> Directory {
    Directory {
        name: name.to_string(),
        files: vec![],
        rules,
        readme: readme.map(|s| s.to_string()),
        directories,
    }
}

#[test]
fn update_diagrams_walks_the_whole_tree() {
    let block_ab = "```mermaid\n%%dep\ngraph TD\n  subgraph \" \"\n  a --> b\n  end\n```\n";
    let mut root = dir(
        "root",
        Some(rules_from(&[("a", &["b"])])),
        Some("# Root\n"),
        vec![
            dir("a", None, Some("untouched\n"), vec![dir("deep", Some(rules_from(&[("a", &["b"])])), None, vec![])]),
            dir("b", Some(rules_from(&[])), None, vec![]),
        ],
    );
    update_diagrams_recursively(&mut root, false);
    assert_eq!(root.readme, Some(format!("# Root\n{}", block_ab)));
    assert_eq!(root.directories[0].readme, Some("untouched\n".to_string()));
    assert_eq!(root.directories[0].directories[0].readme, Some(block_ab.to_string()));
    assert_eq!(root.directories[1].readme, None);
    assert_eq!(root.name, "root");
    assert_eq!(root.directories.len(), 2);
}

#[test]
fn update_readme_keeps_carriage_returns_in_the_prose() {
    let rules = rules_from(&[("a", &["b"])]);
    let old = "x\r\n```mermaid\r\n%%dep\r\n  old\r\n```\r\ny\r\nz";
    let new = update_readme_with_diagram(&rules, &Some(old.to_string()), false).unwrap();
    assert_eq!(
        new,
        "x\r\n```mermaid\n%%dep\ngraph TD\n  subgraph \" \"\n  a --> b\n  end\n```\ny\r\nz\n"
    );
}

#[test]
fn update_readme_twice_is_the_same_with_any_line_endings() {
    let rules = rules_from(&[("a", &["b"]), ("b", &["a"])]);
    for old in [
        "x\r\r\n```mermaid\n%%dep\n```\nafter\r\r\n",
        "x\r\n",
        "\r\n\r\n",
        "%%dep\r\nbody\r\n```\r\ntail\r",
        "",
    ] {
        let once = update_readme_with_diagram(&rules, &Some(old.to_string()), true).unwrap();
        let twice = update_readme_with_diagram(&rules, &Some(once.clone()), true).unwrap();
        assert_eq!(once, twice);
        assert!(once.ends_with('\n'));
        assert!(!once.ends_with("\n\n"));
    }
    let once = update_readme_with_diagram(
        &rules,
        &Some("x\r\r\n```mermaid\n%%dep\n```\n".to_string()),
        false,
    )
    .unwrap();
    assert!(once.starts_with("x\r\r\n```mermaid\n"));
}

#[test]
fn update_readme_twice_with_a_line_feed_in_a_name() {
    let plain = rules_from(&[("a\nb", &["c"])]);
    let once = update_readme_with_diagram(&plain, &Some("x\n".to_string()), false).unwrap();
    let twice = update_readme_with_diagram(&plain, &Some(once.clone()), false).unwrap();
    assert_eq!(once, twice);

    let fence = rules_from(&[("a\n```b", &["c"])]);
    let once = update_readme_with_diagram(&fence, &Some("x\n".to_string()), false).unwrap();
    let twice = update_readme_with_diagram(&fence, &Some(once.clone()), false).unwrap();
    assert_ne!(once, twice);
}
