use ts_deplint::ts_reader::{extract_import, read_ts_imports, select_imports};

fn strings(items: &[&str]) -> Vec<String> {
    items.iter().map(|s| s.to_string()).collect()
}

#[test]
fn test_extract_import_paths() {
    let cases = [
        ("import x from 'foo';", Some("foo")),
        ("import { y } from './bar';", Some("./bar")),
        ("import * as z from 'baz';", Some("baz")),
        ("import 'side-effect';", Some("side-effect")),
        (
            "import {\n    a,\n    b,\n    c,\n} from 'multi-line/import';",
            Some("multi-line/import"),
        ),
        (
            "import a from '@package/with-symbol';",
            Some("@package/with-symbol"),
        ),
        (
            "import a from \"@double-quote/import\";",
            Some("@double-quote/import"),
        ),
        ("function test() {", None),
    ];
    for (input, expected) in cases {
        assert_eq!(
            extract_import(input),
            expected.map(String::from),
            "Failed on input: {input}"
        );
    }
}

#[test]
fn extract_import_does_not_echo_the_line() {
    let line = "import x from 'foo';";
    assert_ne!(extract_import(line), Some(line.to_string()));
    assert_eq!(extract_import(line), Some("foo".to_string()));
}

#[test]
fn read_ts_imports_in_order_of_appearance() {
    let lines = strings(&[
        "import a from './a';",
        "const x = 1;",
        "import b from \"../b\";",
        "export { c } from 'lib/c';",
    ]);
    assert_eq!(read_ts_imports(&lines), strings(&["./a", "../b", "lib/c"]));
}

#[test]
fn read_ts_imports_skips_the_line_after_the_ignore_comment() {
    let lines = strings(&[
        "import a from './a';",
        "// ts_deplint ignore",
        "import b from './b';",
        "import c from './c';",
    ]);
    assert_eq!(read_ts_imports(&lines), strings(&["./a", "./c"]));
}

#[test]
fn read_ts_imports_ignore_comment_reaches_one_line_only() {
    let lines = strings(&[
        "  // ts_deplint ignore because of reasons",
        "",
        "import b from './b';",
    ]);
    assert_eq!(read_ts_imports(&lines), strings(&["./b"]));
}

#[test]
fn read_ts_imports_import_on_the_comment_line_counts() {
    let lines = strings(&[
        "import a from './a'; // ts_deplint ignore",
        "import b from './b';",
    ]);
    assert_eq!(read_ts_imports(&lines), strings(&["./a"]));
}

#[test]
fn read_ts_imports_of_nothing() {
    assert_eq!(read_ts_imports(&vec![]), strings(&[]));
}

#[test]
fn select_imports_takes_what_was_found() {
    let lines = strings(&["one", "// ts_deplint ignore", "three", "four"]);
    let found = vec![
        Some("first".to_string()),
        Some("second".to_string()),
        Some("third".to_string()),
        None,
    ];
    assert_eq!(select_imports(&lines, &found), strings(&["first", "second"]));
}

#[test]
fn select_imports_with_fewer_entries_than_lines() {
    let lines = strings(&["one", "two", "three"]);
    let found = vec![Some("first".to_string())];
    assert_eq!(select_imports(&lines, &found), strings(&["first"]));
}
