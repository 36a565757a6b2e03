//! The import extractor: the import paths that the lines of a source file
//! hold.
use vstd::prelude::*;
use crate::text::{contains, contains_text, text_view};

verus! {

/// A line that holds this text keeps the line after it from being read.
pub const IGNORE_COMMENT: &'static str = "// ts_deplint ignore";

/// The pattern of a line that imports: after `from` or `import` and white
/// space, a path between quotes, and a semicolon. The path is its first
/// group.
pub const IMPORT_PATTERN: &'static str = "(?:from|import)+\\s+[\"']([^\"']+)[\"'];";

/// What the regular expression `pattern` captures in its group `group`, in
/// its leftmost match in `haystack`. There is no result where `pattern` is
/// no regular expression, where it matches nowhere in `haystack`, and where
/// the group has no part in the match.
pub uninterp spec fn regex_capture(pattern: Seq<char>, haystack: Seq<char>, group: nat) -> Option<
    Seq<char>,
>;

/// Calls `regex::Regex::new` on `pattern` and `Regex::captures` on
/// `haystack`, and takes with `Captures::get` the text of the group `group`
/// of the match. The contract gives the result a name; it states nothing
/// else about it.
#[verifier::external_body]
fn capture_group(pattern: &str, haystack: &str, group: usize) -> (r: Option<String>)
    ensures
        text_view(r) == regex_capture(pattern@, haystack@, group as nat),
{
    let re = regex::Regex::new(pattern).ok()?;
    let caps = re.captures(haystack)?;
    caps.get(group).map(|m| m.as_str().to_string())
}

/// The import path that `line` holds, if it holds one.
pub fn extract_import(line: &str) -> (r: Option<String>)
    ensures
        text_view(r) == regex_capture(IMPORT_PATTERN@, line@, 1),
{
    capture_group(IMPORT_PATTERN, line, 1)
}

/// Whether the line at position `i` of `lines` is kept from being read: the
/// line before it holds the ignore comment.
pub open spec fn is_ignored(lines: Seq<Seq<char>>, i: int) -> bool {
    0 < i <= lines.len() && contains_text(lines[i - 1], IGNORE_COMMENT@)
}

/// The import paths among `found`, where `found[i]` is what the line at
/// position `i` of `lines` holds: those of the first `n` lines, in order,
/// but for the lines that are kept from being read.
pub open spec fn selected_imports(lines: Seq<Seq<char>>, found: Seq<Option<Seq<char>>>, n: int) -> Seq<
    Seq<char>,
>
    decreases n,
{
    if n <= 0 {
        Seq::empty()
    } else {
        let before = selected_imports(lines, found, n - 1);
        if n - 1 < found.len() && found[n - 1] is Some && !is_ignored(lines, n - 1) {
            before.push(found[n - 1]->0)
        } else {
            before
        }
    }
}

/// What each of `lines` holds according to the import pattern.
pub open spec fn captures_of(lines: Seq<Seq<char>>) -> Seq<Option<Seq<char>>> {
    Seq::new(lines.len(), |i: int| regex_capture(IMPORT_PATTERN@, lines[i], 1))
}

/// The texts of optional strings.
pub open spec fn text_views(found: Seq<Option<String>>) -> Seq<Option<Seq<char>>> {
    Seq::new(found.len(), |i: int| text_view(found[i]))
}

/// The imports of a file from what each of its lines holds: `found[i]` is
/// the import path of the line at position `i` of `lines`, or nothing. A
/// line that follows a line with the ignore comment is passed over, and so
/// is a line for which `found` has no entry.
pub fn select_imports(lines: &Vec<String>, found: &Vec<Option<String>>) -> (r: Vec<String>)
    ensures
        r.deep_view() == selected_imports(
            lines.deep_view(),
            text_views(found@),
            lines.len() as int,
        ),
{
    let ghost all = lines.deep_view();
    let ghost paths = text_views(found@);
    let mut ts_imports: Vec<String> = Vec::new();
    let mut ignore_next = false;
    let mut i: usize = 0;
    proof {
        assert(ts_imports.deep_view() =~= Seq::<Seq<char>>::empty());
    }
    while i < lines.len()
        invariant
            i <= lines.len(),
            all == lines.deep_view(),
            paths == text_views(found@),
            ignore_next == is_ignored(all, i as int),
            ts_imports.deep_view() == selected_imports(all, paths, i as int),
        decreases lines.len() - i,
    {
        let ghost done = ts_imports.deep_view();
        if !ignore_next && i < found.len() {
            match &found[i] {
                Some(ts_import) => {
                    ts_imports.push(ts_import.clone());
                    proof {
                        assert(paths[i as int] == Some(ts_import@));
                        assert(ts_imports.deep_view() =~= done.push(ts_import@));
                    }
                },
                None => {
                    proof {
                        assert(paths[i as int] is None);
                    }
                },
            }
        }
        ignore_next = contains(lines[i].as_str(), IGNORE_COMMENT);
        i += 1;
    }
    ts_imports
}

/// The import paths that the lines `lines` of a source file hold, as they
/// are written and in order of appearance. A line that follows a line with
/// the ignore comment is not read.
pub fn read_ts_imports(lines: &Vec<String>) -> (r: Vec<String>)
    ensures
        r.deep_view() == selected_imports(
            lines.deep_view(),
            captures_of(lines.deep_view()),
            lines.len() as int,
        ),
{
    let mut found: Vec<Option<String>> = Vec::new();
    let mut i: usize = 0;
    while i < lines.len()
        invariant
            i <= lines.len(),
            found.len() == i,
            forall|k: int|
                0 <= k < i ==> text_view(#[trigger] found@[k]) == regex_capture(
                    IMPORT_PATTERN@,
                    lines.deep_view()[k],
                    1,
                ),
        decreases lines.len() - i,
    {
        found.push(extract_import(lines[i].as_str()));
        i += 1;
    }
    proof {
        assert(text_views(found@) =~= captures_of(lines.deep_view()));
    }
    select_imports(lines, &found)
}

} // verus!
