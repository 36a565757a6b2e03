use ts_deplint::order::{order_text, TextOrder};
use ts_deplint::text::{chars_of, contains, contains_name, decimal_text, ends_with, join_texts, split_text, starts_with, string_of_range, text_eq};

fn strings(items: &[&str]) -> Vec<String> {
    items.iter().map(|s| s.to_string()).collect()
}

#[test]
fn chars_round_trip() {
    let text = "héllo wörld ✓";
    let chars = chars_of(text);
    assert_eq!(string_of_range(&chars, 0, chars.len()), text);
    assert_eq!(string_of_range(&chars, 1, 5), "éllo");
    assert_eq!(chars_of("ab"), vec!['a', 'b']);
    assert_eq!(chars_of(""), Vec::<char>::new());
}

#[test]
fn text_tests() {
    assert!(text_eq("abc", "abc"));
    assert!(!text_eq("abc", "abd"));
    assert!(!text_eq("abc", "ab"));
    assert!(starts_with("%%dep foo", "%%dep"));
    assert!(starts_with("abc", ""));
    assert!(!starts_with("%dep", "%%dep"));
    assert!(!starts_with("ab", "abc"));
    assert!(ends_with("file.ts", ".ts"));
    assert!(!ends_with("file.tsx", ".ts"));
    assert!(!ends_with("ts", ".ts"));
    assert!(ends_with("x", ""));
    assert!(contains("a // ts_deplint ignore b", "// ts_deplint ignore"));
    assert!(contains("abc", ""));
    assert!(contains("abc", "c"));
    assert!(contains("abc", "abc"));
    assert!(!contains("abc", "abcd"));
    assert!(!contains("abc", "ca"));
    assert!(contains_name(&strings(&["a", "b"]), "b"));
    assert!(!contains_name(&strings(&["a", "b"]), "c"));
}

#[test]
fn split_and_join() {
    assert_eq!(split_text("a,b,,c", ','), strings(&["a", "b", "", "c"]));
    assert_eq!(split_text("", ','), strings(&[""]));
    assert_eq!(split_text(",", ','), strings(&["", ""]));
    assert_eq!(split_text("abc", ','), strings(&["abc"]));
    assert_eq!(join_texts(&strings(&["a", "b", "", "c"]), ","), "a,b,,c");
    assert_eq!(join_texts(&strings(&["a", "b"]), ", "), "a, b");
    assert_eq!(join_texts(&strings(&[]), ","), "");
    assert_eq!(join_texts(&strings(&[""]), ","), "");
}

#[test]
fn decimal_digits() {
    assert_eq!(decimal_text(0), "0");
    assert_eq!(decimal_text(7), "7");
    assert_eq!(decimal_text(10), "10");
    assert_eq!(decimal_text(123456789), "123456789");
    assert_eq!(decimal_text(9001), "9001");
    assert_eq!(decimal_text(usize::MAX), usize::MAX.to_string());
}

#[test]
fn lexicographic_order() {
    assert_eq!(order_text("a", "b"), TextOrder::Before);
    assert_eq!(order_text("b", "a"), TextOrder::After);
    assert_eq!(order_text("a", "a"), TextOrder::Same);
    assert_eq!(order_text("", ""), TextOrder::Same);
    assert_eq!(order_text("", "a"), TextOrder::Before);
    assert_eq!(order_text("ab", "a"), TextOrder::After);
    assert_eq!(order_text("a", "ab"), TextOrder::Before);
    assert_eq!(order_text("Z", "a"), TextOrder::Before);
    assert_eq!(order_text("é", "z"), TextOrder::After);
    let mut words = vec!["b", "é", "a", "ab", "Z", "", "aé"];
    let mut expected = words.clone();
    expected.sort();
    words.sort_by(|x, y| match order_text(x, y) {
        TextOrder::Before => std::cmp::Ordering::Less,
        TextOrder::Same => std::cmp::Ordering::Equal,
        TextOrder::After => std::cmp::Ordering::Greater,
    });
    assert_eq!(words, expected);
}
