//! The diagram block of a documentation file: finding it, and replacing it
//! while the text around it stays as it is.
use vstd::prelude::*;
use crate::allows::Graph;
use crate::diagram::{allow_graph, diagram_block, extend_lines, get_allows, render_diagram};
use crate::rules::{rules_view, RulesDocument};
use crate::text::{
    clone_names, join_texts, join_with, lemma_split_on, split_on, split_text, starts_with,
    text_view,
};
use crate::tree::{
    dir_view, dirs_view, height, lemma_dirs_view, lemma_max_height, Directory, DirView,
};

verus! {

/// Name of the documentation file that holds a directory's diagram.
pub const README_FILE_NAME: &'static str = "README.md";

/// The lines of `text`. A line ends with a line feed, which does not
/// belong to the line; every other character does, a carriage return too.
/// What follows the last line feed is a line too, unless it is empty.
pub open spec fn text_lines(text: Seq<char>) -> Seq<Seq<char>> {
    let pieces = split_on(text, '\n');
    if pieces.last().len() > 0 {
        pieces
    } else {
        pieces.drop_last()
    }
}

/// The position of the first line of `lines`, from position `from` on, that
/// begins with `prefix`; or the number of lines if there is none.
pub open spec fn first_starting_with(lines: Seq<Seq<char>>, prefix: Seq<char>, from: int) -> int
    decreases lines.len() - from,
{
    if from < 0 || from >= lines.len() {
        lines.len() as int
    } else if prefix.is_prefix_of(lines[from]) {
        from
    } else {
        first_starting_with(lines, prefix, from + 1)
    }
}

/// What `first_starting_with` finds: the first such line, or the end.
pub proof fn lemma_first_starting_with(lines: Seq<Seq<char>>, prefix: Seq<char>, from: int)
    requires
        0 <= from <= lines.len(),
    ensures
        from <= first_starting_with(lines, prefix, from) <= lines.len(),
        first_starting_with(lines, prefix, from) < lines.len() ==> prefix.is_prefix_of(
            lines[first_starting_with(lines, prefix, from)],
        ),
        forall|k: int|
            from <= k < first_starting_with(lines, prefix, from) ==> !prefix.is_prefix_of(
                #[trigger] lines[k],
            ),
    decreases lines.len() - from,
{
    if from < lines.len() && !prefix.is_prefix_of(lines[from]) {
        lemma_first_starting_with(lines, prefix, from + 1);
    }
}

/// The position of the line that opens the diagram block of `lines`: the
/// line before the first line that begins with `%%dep`, or that line itself
/// if it is the first of all. Without such a line there is no block, and
/// the result is the number of lines.
pub open spec fn block_start(lines: Seq<Seq<char>>) -> int {
    let sigil = first_starting_with(lines, "%%dep"@, 0);
    if sigil >= lines.len() {
        lines.len() as int
    } else if sigil == 0 {
        0
    } else {
        sigil - 1
    }
}

/// The position of the line that closes the diagram block of `lines`: the
/// first line after the one that opens it that begins with three backticks,
/// or the number of lines if none does.
pub open spec fn block_end(lines: Seq<Seq<char>>) -> int {
    first_starting_with(lines, "```"@, block_start(lines) + 1)
}

/// The lines of `lines` before its diagram block; all of them if it has
/// none.
pub open spec fn lines_before_block(lines: Seq<Seq<char>>) -> Seq<Seq<char>> {
    if 0 <= block_start(lines) <= lines.len() {
        lines.take(block_start(lines))
    } else {
        lines
    }
}

/// The lines of `lines` after its diagram block; none if it has no block,
/// or if the block is not closed.
pub open spec fn lines_after_block(lines: Seq<Seq<char>>) -> Seq<Seq<char>> {
    if block_start(lines) < lines.len() && 0 <= block_end(lines) < lines.len() {
        lines.skip(block_end(lines) + 1)
    } else {
        Seq::empty()
    }
}

/// The lines `lines` without the empty lines at their end.
pub open spec fn without_empty_end(lines: Seq<Seq<char>>) -> Seq<Seq<char>>
    decreases lines.len(),
{
    if lines.len() > 0 && lines.last().len() == 0 {
        without_empty_end(lines.drop_last())
    } else {
        lines
    }
}

/// The lines of a documentation file after its diagram block was replaced
/// by that of the graph `g`: the lines before the block, the new block, the
/// lines after the block, and no empty line at the end. A file without a
/// block gets the block at its end.
pub open spec fn updated_lines(g: Graph, mark_circular: bool, lines: Seq<Seq<char>>) -> Seq<
    Seq<char>,
> {
    without_empty_end(
        lines_before_block(lines) + diagram_block(g, mark_circular) + lines_after_block(lines),
    )
}

/// The lines of the text of an optional file; none where there is no file.
pub open spec fn optional_lines(text: Option<Seq<char>>) -> Seq<Seq<char>> {
    match text {
        Some(t) => text_lines(t),
        None => Seq::empty(),
    }
}

/// The text of a documentation file after its diagram block was replaced
/// by that of the graph `g`. Each line is written as it is and ends with
/// one line feed, so the text ends with exactly one.
pub open spec fn updated_text(g: Graph, mark_circular: bool, readme: Option<Seq<char>>) -> Seq<
    char,
> {
    join_with(updated_lines(g, mark_circular, optional_lines(readme)), "\n"@) + "\n"@
}

/// The lines of `text`.
pub fn lines_of(text: &str) -> (r: Vec<String>)
    ensures
        r.deep_view() == text_lines(text@),
{
    let mut pieces = split_text(text, '\n');
    proof {
        lemma_split_on(text@, '\n');
    }
    let ghost all = pieces.deep_view();
    let last: usize = pieces.len() - 1;
    if pieces[last].as_str().is_empty() {
        pieces.pop();
        proof {
            assert(pieces.deep_view() =~= all.drop_last());
        }
    }
    pieces
}

/// The position of the first line of `lines`, from position `from` on, that
/// begins with `prefix`; or the number of lines if there is none.
pub fn position_starting_with(lines: &Vec<String>, prefix: &str, from: usize) -> (r: usize)
    ensures
        r == first_starting_with(lines.deep_view(), prefix@, from as int),
        r <= lines.len(),
{
    let ghost all = lines.deep_view();
    if from >= lines.len() {
        return lines.len();
    }
    let mut k: usize = from;
    while k < lines.len()
        invariant
            from <= k <= lines.len(),
            all == lines.deep_view(),
            first_starting_with(all, prefix@, from as int) == first_starting_with(
                all,
                prefix@,
                k as int,
            ),
        decreases lines.len() - k,
    {
        if starts_with(lines[k].as_str(), prefix) {
            return k;
        }
        k += 1;
    }
    lines.len()
}

/// Copies of the lines `lines[from..to]`.
pub fn lines_between(lines: &Vec<String>, from: usize, to: usize) -> (r: Vec<String>)
    requires
        from <= to <= lines.len(),
    ensures
        r.deep_view() == lines.deep_view().subrange(from as int, to as int),
{
    let mut out: Vec<String> = Vec::new();
    let mut k: usize = from;
    while k < to
        invariant
            from <= k <= to <= lines.len(),
            out.len() == k - from,
            forall|j: int| 0 <= j < out.len() ==> out@[j]@ == lines@[from + j]@,
        decreases to - k,
    {
        out.push(lines[k].clone());
        k += 1;
    }
    assert(out.deep_view() =~= lines.deep_view().subrange(from as int, to as int));
    out
}

/// The lines of a documentation file before and after its diagram block.
/// `readme` is the text of the file, or nothing where there is no file. A
/// file without a block has all its lines before the block and none after.
pub fn get_other_readme_lines(readme: &Option<String>) -> (r: (Vec<String>, Vec<String>))
    ensures
        r.0.deep_view() == lines_before_block(optional_lines(text_view(*readme))),
        r.1.deep_view() == lines_after_block(optional_lines(text_view(*readme))),
{
    match readme {
        None => {
            let before: Vec<String> = Vec::new();
            let after: Vec<String> = Vec::new();
            proof {
                let none = Seq::<Seq<char>>::empty();
                assert(before.deep_view() =~= none);
                assert(after.deep_view() =~= none);
                assert(lines_before_block(none) =~= none);
            }
            (before, after)
        },
        Some(text) => {
            let readme_lines = lines_of(text.as_str());
            let ghost all = readme_lines.deep_view();
            let dep_sigil_index: usize = position_starting_with(&readme_lines, "%%dep", 0);
            proof {
                lemma_first_starting_with(all, "%%dep"@, 0);
            }
            if dep_sigil_index >= readme_lines.len() {
                let before = clone_names(&readme_lines);
                let after: Vec<String> = Vec::new();
                proof {
                    assert(all.take(all.len() as int) =~= all);
                    assert(after.deep_view() =~= Seq::<Seq<char>>::empty());
                }
                return (before, after);
            }
            let block_start_idx: usize = if dep_sigil_index == 0 {
                0
            } else {
                dep_sigil_index - 1
            };
            let block_end_idx: usize = position_starting_with(&readme_lines, "```", block_start_idx + 1);
            proof {
                lemma_first_starting_with(all, "```"@, block_start_idx + 1);
            }
            let before = lines_between(&readme_lines, 0, block_start_idx);
            let after = if block_end_idx < readme_lines.len() {
                lines_between(&readme_lines, block_end_idx + 1, readme_lines.len())
            } else {
                Vec::new()
            };
            proof {
                assert(all.subrange(0, block_start_idx as int) =~= all.take(block_start_idx as int));
                if block_end_idx < readme_lines.len() {
                    assert(all.subrange(block_end_idx + 1, all.len() as int) =~= all.skip(
                        block_end_idx + 1,
                    ));
                } else {
                    assert(after.deep_view() =~= Seq::<Seq<char>>::empty());
                }
            }
            (before, after)
        },
    }
}

/// The new text of a documentation file whose diagram block is brought up
/// to date with the rules `rules`. `readme` is the present text of the
/// file, or nothing where there is no file. Rules without a source draw no
/// diagram, and there is no new text then.
pub fn update_readme_with_diagram(
    rules: &RulesDocument,
    readme: &Option<String>,
    show_circular_dependencies: bool,
) -> (r: Option<String>)
    ensures
        rules@.len() == 0 ==> r is None,
        rules@.len() > 0 ==> (r matches Some(text) && text@ == updated_text(
            allow_graph(rules@),
            show_circular_dependencies,
            text_view(*readme),
        )),
{
    let allows = get_allows(rules);
    if rules.allow.len() == 0 {
        return None;
    }
    let (before_dep_diagram_block, after_dep_diagram_block) = get_other_readme_lines(readme);
    let block = render_diagram(&allows, show_circular_dependencies);
    let mut output_lines: Vec<String> = Vec::new();
    assert(output_lines.deep_view() =~= Seq::<Seq<char>>::empty());
    extend_lines(&mut output_lines, &before_dep_diagram_block);
    extend_lines(&mut output_lines, &block);
    extend_lines(&mut output_lines, &after_dep_diagram_block);
    let ghost all = output_lines.deep_view();
    proof {
        assert(all =~= before_dep_diagram_block.deep_view() + block.deep_view()
            + after_dep_diagram_block.deep_view());
    }
    while output_lines.len() > 0 && output_lines[output_lines.len() - 1].as_str().is_empty()
        invariant
            without_empty_end(output_lines.deep_view()) == without_empty_end(all),
        decreases output_lines.len(),
    {
        let ghost prev = output_lines.deep_view();
        output_lines.pop();
        proof {
            assert(output_lines.deep_view() =~= prev.drop_last());
        }
    }
    let mut output_content = join_texts(&output_lines, "\n");
    output_content.push('\n');
    proof {
        reveal_strlit("\n");
        assert("\n"@ =~= seq!['\n']);
        assert(output_content@ =~= join_with(output_lines.deep_view(), "\n"@) + "\n"@);
    }
    Some(output_content)
}

/// The text of the documentation file of `dir` after its diagram was
/// brought up to date: a directory whose rules have a source gets the
/// diagram of its rules, every other keeps what it has.
pub open spec fn documented(dir: DirView, mark_circular: bool) -> Option<Seq<char>> {
    match dir.rules {
        Some(g) => if g.len() > 0 {
            Some(updated_text(allow_graph(g), mark_circular, dir.readme))
        } else {
            dir.readme
        },
        None => dir.readme,
    }
}

/// The tree `dir` after the diagrams of all its directories were brought
/// up to date. Nothing but the documentation files changes.
pub open spec fn with_diagrams(dir: DirView, mark_circular: bool) -> DirView
    decreases dir, 0nat,
{
    DirView {
        readme: documented(dir, mark_circular),
        directories: all_with_diagrams(dir.directories, mark_circular),
        ..dir
    }
}

/// The trees `dirs`, each after the diagrams of all its directories were
/// brought up to date.
pub open spec fn all_with_diagrams(dirs: Seq<DirView>, mark_circular: bool) -> Seq<DirView>
    decreases dirs, 1nat,
{
    if dirs.len() == 0 {
        Seq::empty()
    } else {
        all_with_diagrams(dirs.drop_last(), mark_circular).push(
            with_diagrams(dirs.last(), mark_circular),
        )
    }
}

/// `all_with_diagrams` holds the updated tree of each directory, in place.
pub proof fn lemma_all_with_diagrams(dirs: Seq<DirView>, mark_circular: bool)
    ensures
        all_with_diagrams(dirs, mark_circular).len() == dirs.len(),
        forall|i: int|
            0 <= i < dirs.len() ==> #[trigger] all_with_diagrams(dirs, mark_circular)[i]
                == with_diagrams(dirs[i], mark_circular),
    decreases dirs.len(),
{
    if dirs.len() > 0 {
        lemma_all_with_diagrams(dirs.drop_last(), mark_circular);
        assert forall|i: int| 0 <= i < dirs.len() implies #[trigger] all_with_diagrams(
            dirs,
            mark_circular,
        )[i] == with_diagrams(dirs[i], mark_circular) by {
            if i < dirs.len() - 1 {
                assert(dirs.drop_last()[i] == dirs[i]);
            }
        }
    }
}

/// Brings the diagram in the documentation file of `dir`, and of every
/// directory below it, up to date with the rules of that directory. A
/// directory without rules, or whose rules have no source, keeps its
/// documentation file as it is.
pub fn update_diagrams_recursively(dir: &mut Directory, show_circular_dependencies: bool)
    ensures
        final(dir)@ == with_diagrams(old(dir)@, show_circular_dependencies),
    decreases height(old(dir)@),
{
    let ghost before = dir@;
    let updated = match &dir.rules {
        Some(rules) => update_readme_with_diagram(rules, &dir.readme, show_circular_dependencies),
        None => None,
    };
    match updated {
        Some(text) => {
            dir.readme = Some(text);
        },
        None => {},
    }
    let ghost children = dir.directories@;
    proof {
        lemma_dirs_view(children);
        lemma_all_with_diagrams(before.directories, show_circular_dependencies);
    }
    let n: usize = dir.directories.len();
    let mut i: usize = 0;
    while i < n
        invariant
            i <= n,
            n == children.len(),
            before == old(dir)@,
            before.directories == dirs_view(children),
            before.directories.len() == n,
            dir.directories@.len() == n,
            dir.name@ == before.name,
            dir.files.deep_view() == before.files,
            rules_view(dir.rules) == before.rules,
            text_view(dir.readme) == documented(before, show_circular_dependencies),
            forall|j: int| 0 <= j < n ==> #[trigger] before.directories[j] == dir_view(children[j]),
            forall|j: int|
                0 <= j < i ==> dir_view(#[trigger] dir.directories@[j]) == with_diagrams(
                    before.directories[j],
                    show_circular_dependencies,
                ),
            forall|j: int| i <= j < n ==> #[trigger] dir.directories@[j] == children[j],
        decreases n - i,
    {
        let ghost so_far = dir.directories@;
        proof {
            lemma_max_height(before.directories, i as int);
        }
        update_diagrams_recursively(&mut dir.directories[i], show_circular_dependencies);
        proof {
            let now = dir.directories@;
            assert(now =~= so_far.update(i as int, now[i as int]));
        }
        i += 1;
    }
    proof {
        let now = dir.directories@;
        lemma_dirs_view(now);
        assert(dirs_view(now) =~= all_with_diagrams(
            before.directories,
            show_circular_dependencies,
        ));
    }
}

} // verus!
