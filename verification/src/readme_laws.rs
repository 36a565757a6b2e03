//! What holds of an updated documentation file: the text around the
//! diagram block stays, a second update changes nothing, and the text ends
//! with one line feed.
use vstd::prelude::*;
use crate::allows::Graph;
use crate::diagram::{
    circular_positions, diagram_block, edge_line, edge_lines, edges_of, lemma_edge_lines_len,
    link_style_line, block_head, Edge,
};
use crate::diagram::{decimals, source_edges};
use crate::readme::{
    block_end, block_start, first_starting_with, lemma_first_starting_with, lines_after_block,
    lines_before_block, optional_lines, text_lines, updated_lines, updated_text,
    without_empty_end,
};
use crate::text::{decimal, join_with, lemma_split_join, lemma_split_on, split_on};

verus! {

/// Whether `line` begins with the mark of a diagram block, `%%dep`.
pub open spec fn is_sigil_line(line: Seq<char>) -> bool {
    "%%dep"@.is_prefix_of(line)
}

/// Whether `line` begins with three backticks.
pub open spec fn is_fence_line(line: Seq<char>) -> bool {
    "```"@.is_prefix_of(line)
}

/// The first line from `from` on that begins with `prefix` is at `at`, if
/// that line begins with it and none between does.
pub proof fn lemma_first_is(lines: Seq<Seq<char>>, prefix: Seq<char>, from: int, at: int)
    requires
        0 <= from <= at < lines.len(),
        prefix.is_prefix_of(lines[at]),
        forall|k: int| from <= k < at ==> !prefix.is_prefix_of(#[trigger] lines[k]),
    ensures
        first_starting_with(lines, prefix, from) == at,
{
    lemma_first_starting_with(lines, prefix, from);
}

/// A block is found where it stands: in lines made of prose, an opening
/// line, the line with the mark, a body without fence, a closing fence and
/// more prose, the lines before the block are the first prose and the
/// lines after it the second, whatever they hold, as long as no line
/// before the mark begins with the mark itself.
pub proof fn lemma_block_found(
    before: Seq<Seq<char>>,
    open: Seq<char>,
    sigil: Seq<char>,
    body: Seq<Seq<char>>,
    close: Seq<char>,
    after: Seq<Seq<char>>,
)
    requires
        forall|i: int| 0 <= i < before.len() ==> !is_sigil_line(#[trigger] before[i]),
        !is_sigil_line(open),
        is_sigil_line(sigil),
        forall|j: int| 0 <= j < body.len() ==> !is_fence_line(#[trigger] body[j]),
        is_fence_line(close),
    ensures
        lines_before_block(before + seq![open, sigil] + body + seq![close] + after) == before,
        lines_after_block(before + seq![open, sigil] + body + seq![close] + after) == after,
{
    let lines = before + seq![open, sigil] + body + seq![close] + after;
    let n = before.len() as int;
    let m = body.len() as int;
    assert(lines[n] == open);
    assert(lines[n + 1] == sigil);
    assert(lines[n + 2 + m] == close);
    assert forall|k: int| 0 <= k < n + 1 implies !"%%dep"@.is_prefix_of(#[trigger] lines[k]) by {
        if k < n {
            assert(lines[k] == before[k]);
        }
    }
    lemma_first_is(lines, "%%dep"@, 0, n + 1);
    assert(block_start(lines) == n);
    assert(!is_fence_line(sigil)) by {
        reveal_strlit("%%dep");
        reveal_strlit("```");
        if is_fence_line(sigil) {
            assert(sigil[0] == "```"@[0]);
            assert(sigil[0] == "%%dep"@[0]);
        }
    }
    assert forall|k: int| n + 1 <= k < n + 2 + m implies !"```"@.is_prefix_of(
        #[trigger] lines[k],
    ) by {
        if k > n + 1 {
            assert(lines[k] == body[k - n - 2]);
        }
    }
    lemma_first_is(lines, "```"@, n + 1, n + 2 + m);
    assert(block_end(lines) == n + 2 + m);
    assert(lines.take(n) =~= before);
    assert(lines.skip(n + 3 + m) =~= after);
}

/// Bringing a diagram up to date leaves the text around the block as it
/// is: the lines before and after the old block stand before and after the
/// new one, in place and unchanged, but for empty lines at the very end.
pub proof fn lemma_update_keeps_surroundings(
    g: Graph,
    mark_circular: bool,
    before: Seq<Seq<char>>,
    open: Seq<char>,
    sigil: Seq<char>,
    body: Seq<Seq<char>>,
    close: Seq<char>,
    after: Seq<Seq<char>>,
)
    requires
        forall|i: int| 0 <= i < before.len() ==> !is_sigil_line(#[trigger] before[i]),
        !is_sigil_line(open),
        is_sigil_line(sigil),
        forall|j: int| 0 <= j < body.len() ==> !is_fence_line(#[trigger] body[j]),
        is_fence_line(close),
    ensures
        updated_lines(
            g,
            mark_circular,
            before + seq![open, sigil] + body + seq![close] + after,
        ) == before + diagram_block(g, mark_circular) + without_empty_end(after),
{
    lemma_block_found(before, open, sigil, body, close, after);
    lemma_block_shape(g, mark_circular);
    lemma_trim_after(before + diagram_block(g, mark_circular), after);
}

/// Empty lines are taken from the end of what follows a line that is not
/// empty, and from nothing before it.
pub proof fn lemma_trim_after(head: Seq<Seq<char>>, rest: Seq<Seq<char>>)
    requires
        head.len() > 0,
        head.last().len() > 0,
    ensures
        without_empty_end(head + rest) == head + without_empty_end(rest),
    decreases rest.len(),
{
    if rest.len() == 0 {
        assert(head + rest =~= head);
    } else if rest.last().len() == 0 {
        assert((head + rest).drop_last() =~= head + rest.drop_last());
        lemma_trim_after(head, rest.drop_last());
    }
}

/// Taking empty lines from the end twice takes no more than once.
pub proof fn lemma_trim_twice(lines: Seq<Seq<char>>)
    ensures
        without_empty_end(without_empty_end(lines)) == without_empty_end(lines),
    decreases lines.len(),
{
    if lines.len() > 0 && lines.last().len() == 0 {
        lemma_trim_twice(lines.drop_last());
    }
}

/// No line that draws an edge is a fence.
proof fn lemma_edge_lines_no_fence(edges: Seq<Edge>, j: int)
    requires
        0 <= j < edge_lines(edges).len(),
    ensures
        !is_fence_line(edge_lines(edges)[j]),
    decreases edges.len(),
{
    if edges.len() > 0 {
        lemma_edge_lines_len(edges.drop_last());
        if j < edges.len() - 1 {
            lemma_edge_lines_no_fence(edges.drop_last(), j);
        } else {
            let line = edge_line(edges.last());
            reveal_strlit("  ");
            reveal_strlit("```");
            if is_fence_line(line) {
                assert(line[0] == "```"@[0]);
                assert(line[0] == "  "@[0]);
            }
        }
    }
}

/// The shape of a diagram block: an opening line that does not begin with
/// the mark, the line with the mark, a body without fence, and a closing
/// fence that is not empty.
pub proof fn lemma_block_shape(g: Graph, mark_circular: bool)
    ensures
        diagram_block(g, mark_circular).len() >= 5,
        !is_sigil_line(diagram_block(g, mark_circular)[0]),
        is_sigil_line(diagram_block(g, mark_circular)[1]),
        forall|j: int|
            2 <= j < diagram_block(g, mark_circular).len() - 1 ==> !is_fence_line(
                #[trigger] diagram_block(g, mark_circular)[j],
            ),
        is_fence_line(diagram_block(g, mark_circular).last()),
        diagram_block(g, mark_circular).last().len() > 0,
{
    let block = diagram_block(g, mark_circular);
    let edges = edges_of(g);
    let lines = edge_lines(edges);
    let circular = circular_positions(g, edges);
    let style = if mark_circular && circular.len() > 0 {
        seq![link_style_line(circular)]
    } else {
        Seq::<Seq<char>>::empty()
    };
    let e = lines.len() as int;
    assert(block == block_head() + lines + seq!["  end"@] + style + seq!["```"@]);
    reveal_strlit("```mermaid");
    reveal_strlit("%%dep");
    reveal_strlit("graph TD");
    reveal_strlit("  subgraph \" \"");
    reveal_strlit("  end");
    reveal_strlit("```");
    reveal_strlit("linkStyle ");
    assert(block[0] == "```mermaid"@);
    assert(block[1] == "%%dep"@);
    assert(block[2] == "graph TD"@);
    assert(block[3] == "  subgraph \" \""@);
    assert(block[4 + e] == "  end"@);
    assert(block.last() == "```"@);
    assert(!is_sigil_line(block[0])) by {
        if is_sigil_line(block[0]) {
            assert(block[0][0] == "%%dep"@[0]);
        }
    }
    assert(is_sigil_line(block[1])) by {
        assert("%%dep"@ =~= block[1].subrange(0, 5));
    }
    assert(is_fence_line(block.last())) by {
        assert("```"@ =~= block.last().subrange(0, 3));
    }
    assert forall|j: int| 2 <= j < block.len() - 1 implies !is_fence_line(#[trigger] block[j]) by {
        if is_fence_line(block[j]) {
            assert(block[j][0] == "```"@[0]);
            if j == 2 {
            } else if j == 3 {
            } else if j < 4 + e {
                assert(block[j] == lines[j - 4]);
                lemma_edge_lines_no_fence(edges, j - 4);
            } else if j == 4 + e {
            } else {
                assert(block[j] == link_style_line(circular));
                assert(block[j][0] == "linkStyle "@[0]);
            }
        }
    }
}

/// Bringing a diagram up to date twice gives what it gives once: the
/// second time finds the block of the first, with the same lines before
/// and after it, and writes the same block again.
pub proof fn lemma_update_twice(g: Graph, mark_circular: bool, lines: Seq<Seq<char>>)
    ensures
        updated_lines(g, mark_circular, updated_lines(g, mark_circular, lines)) == updated_lines(
            g,
            mark_circular,
            lines,
        ),
{
    let before = lines_before_block(lines);
    let after = lines_after_block(lines);
    let block = diagram_block(g, mark_circular);
    lemma_block_shape(g, mark_circular);
    lemma_first_starting_with(lines, "%%dep"@, 0);
    assert forall|i: int| 0 <= i < before.len() implies !is_sigil_line(#[trigger] before[i]) by {
        assert(before[i] == lines[i]);
    }
    let trimmed = without_empty_end(after);
    assert(before + block + after =~= (before + block) + after);
    lemma_trim_after(before + block, after);
    let once = updated_lines(g, mark_circular, lines);
    assert(once == before + block + trimmed);
    let body = block.subrange(2, block.len() - 1);
    assert(block =~= seq![block[0], block[1]] + body + seq![block.last()]);
    assert(once =~= before + seq![block[0], block[1]] + body + seq![block.last()] + trimmed);
    assert forall|j: int| 0 <= j < body.len() implies !is_fence_line(#[trigger] body[j]) by {
        assert(body[j] == block[j + 2]);
    }
    lemma_update_keeps_surroundings(
        g,
        mark_circular,
        before,
        block[0],
        block[1],
        body,
        block.last(),
        trimmed,
    );
    lemma_trim_twice(after);
}

/// Whether `line` can be a line of a text: it holds no line feed.
pub open spec fn is_clean_line(line: Seq<char>) -> bool {
    !line.contains('\n')
}

/// The text that is written from clean lines, each with a line feed at its
/// end, has those lines.
pub proof fn lemma_lines_of_written(lines: Seq<Seq<char>>)
    requires
        lines.len() >= 1,
        forall|i: int| 0 <= i < lines.len() ==> is_clean_line(#[trigger] lines[i]),
    ensures
        text_lines(join_with(lines, "\n"@) + "\n"@) == lines,
{
    reveal_strlit("\n");
    assert("\n"@ =~= seq!['\n']);
    lemma_split_join(lines, '\n');
    let joined = join_with(lines, seq!['\n']);
    let text = joined + seq!['\n'];
    assert(text.drop_last() =~= joined);
    assert(text.last() == '\n');
    let pieces = split_on(text, '\n');
    assert(pieces == lines.push(Seq::<char>::empty()));
    assert(pieces.drop_last() =~= lines);
}

/// A text is its lines, byte for byte: each line as it is with a line feed
/// after it, but for the last line of a text that does not end with a line
/// feed.
pub proof fn lemma_text_is_its_lines(text: Seq<char>)
    ensures
        text.len() > 0 && text.last() == '\n' ==> text == join_with(text_lines(text), "\n"@)
            + "\n"@,
        text.len() > 0 && text.last() != '\n' ==> text == join_with(text_lines(text), "\n"@),
        text.len() == 0 ==> text_lines(text).len() == 0,
{
    reveal_strlit("\n");
    assert("\n"@ =~= seq!['\n']);
    let pieces = split_on(text, '\n');
    lemma_split_on(text, '\n');
    crate::text::lemma_join_split(text, '\n');
    if text.len() > 0 {
        let before = split_on(text.drop_last(), '\n');
        lemma_split_on(text.drop_last(), '\n');
        if text.last() == '\n' {
            assert(pieces == before.push(Seq::<char>::empty()));
            assert(pieces.drop_last() =~= before);
            crate::text::lemma_join_split(text.drop_last(), '\n');
            assert(text =~= text.drop_last() + seq!['\n']);
        } else {
            assert(pieces.last() == before.last().push(text.last()));
        }
    }
}

/// Bringing the diagram of a documentation file up to date changes nothing
/// but the block: where the file is written from clean lines, which are
/// prose, an opening line, the line with the mark, a body without fence, a
/// closing fence and more prose, the new text is written from the same
/// prose with the new block in between, but for empty lines at the very
/// end.
pub proof fn lemma_text_update_keeps_surroundings(
    g: Graph,
    mark_circular: bool,
    before: Seq<Seq<char>>,
    open: Seq<char>,
    sigil: Seq<char>,
    body: Seq<Seq<char>>,
    close: Seq<char>,
    after: Seq<Seq<char>>,
)
    requires
        forall|i: int| 0 <= i < before.len() ==> !is_sigil_line(#[trigger] before[i]),
        !is_sigil_line(open),
        is_sigil_line(sigil),
        forall|j: int| 0 <= j < body.len() ==> !is_fence_line(#[trigger] body[j]),
        is_fence_line(close),
        forall|i: int| 0 <= i < before.len() ==> is_clean_line(#[trigger] before[i]),
        is_clean_line(open),
        is_clean_line(sigil),
        forall|j: int| 0 <= j < body.len() ==> is_clean_line(#[trigger] body[j]),
        is_clean_line(close),
        forall|i: int| 0 <= i < after.len() ==> is_clean_line(#[trigger] after[i]),
    ensures
        updated_text(
            g,
            mark_circular,
            Some(
                join_with(before + seq![open, sigil] + body + seq![close] + after, "\n"@)
                    + "\n"@,
            ),
        ) == join_with(
            before + diagram_block(g, mark_circular) + without_empty_end(after),
            "\n"@,
        ) + "\n"@,
{
    let lines = before + seq![open, sigil] + body + seq![close] + after;
    let n = before.len() as int;
    let m = body.len() as int;
    assert forall|i: int| 0 <= i < lines.len() implies is_clean_line(#[trigger] lines[i]) by {
        if i < n {
            assert(lines[i] == before[i]);
        } else if i == n {
            assert(lines[i] == open);
        } else if i == n + 1 {
            assert(lines[i] == sigil);
        } else if i < n + 2 + m {
            assert(lines[i] == body[i - n - 2]);
        } else if i == n + 2 + m {
            assert(lines[i] == close);
        } else {
            assert(lines[i] == after[i - n - 3 - m]);
        }
    }
    lemma_lines_of_written(lines);
    lemma_update_keeps_surroundings(g, mark_circular, before, open, sigil, body, close, after);
}

/// Lines without empty lines at their end are none, or end with a line
/// that is not empty.
pub proof fn lemma_trimmed_end(lines: Seq<Seq<char>>)
    ensures
        without_empty_end(lines).len() == 0 || without_empty_end(lines).last().len() > 0,
    decreases lines.len(),
{
    if lines.len() > 0 && lines.last().len() == 0 {
        lemma_trimmed_end(lines.drop_last());
    }
}

/// Lines that are joined end as the last of them ends, if that is not
/// empty.
pub proof fn lemma_join_ends(lines: Seq<Seq<char>>, sep: Seq<char>)
    requires
        lines.len() > 0,
        lines.last().len() > 0,
    ensures
        join_with(lines, sep).len() > 0,
        join_with(lines, sep).last() == lines.last().last(),
{
}

/// No line of a text holds a line feed.
pub proof fn lemma_lines_hold_no_feed(text: Seq<char>, i: int)
    requires
        0 <= i < text_lines(text).len(),
    ensures
        is_clean_line(text_lines(text)[i]),
{
    let pieces = split_on(text, '\n');
    lemma_split_on(text, '\n');
    assert(text_lines(text)[i] == pieces[i]);
}

/// The text of an updated documentation file ends with exactly one line
/// feed: its last character is a line feed, and the one before it is none.
pub proof fn lemma_updated_text_ends_with_one_line_feed(
    g: Graph,
    mark_circular: bool,
    readme: Option<Seq<char>>,
)
    ensures
        updated_text(g, mark_circular, readme).len() >= 2,
        updated_text(g, mark_circular, readme).last() == '\n',
        updated_text(g, mark_circular, readme)[updated_text(g, mark_circular, readme).len() - 2]
            != '\n',
{
    let old = optional_lines(readme);
    let before = lines_before_block(old);
    let after = lines_after_block(old);
    let block = diagram_block(g, mark_circular);
    let lines = updated_lines(g, mark_circular, old);
    lemma_block_shape(g, mark_circular);
    lemma_trim_after(before + block, after);
    lemma_trimmed_end(after);
    let trimmed = without_empty_end(after);
    assert(lines == before + block + trimmed);
    let last = lines.last();
    assert(last.len() > 0 && last.last() != '\n') by {
        if trimmed.len() == 0 {
            assert(lines =~= before + block);
            assert(last == block.last());
            reveal_strlit("```");
            assert("```"@.is_prefix_of(last));
            let tail = diagram_block(g, mark_circular).last();
            assert(tail == "```"@);
        } else {
            assert(last == trimmed.last());
            lemma_trimmed_is_prefix(after);
            let k = trimmed.len() - 1;
            assert(trimmed[k] == after[k]);
            lemma_first_starting_with(old, "%%dep"@, 0);
            lemma_first_starting_with(old, "```"@, block_start(old) + 1);
            let at = block_end(old) + 1 + k;
            assert(after[k] == old[at]);
            lemma_lines_hold_no_feed(readme->0, at);
            assert(last[last.len() - 1] == last.last());
        }
    }
    reveal_strlit("\n");
    lemma_join_ends(lines, "\n"@);
    let joined = join_with(lines, "\n"@);
    let text = updated_text(g, mark_circular, readme);
    assert(text == joined + "\n"@);
    assert(text.last() == '\n');
    assert(text[text.len() - 2] == last.last());
}

/// Lines without empty lines at their end are a beginning of the lines.
pub proof fn lemma_trimmed_is_prefix(lines: Seq<Seq<char>>)
    ensures
        without_empty_end(lines).is_prefix_of(lines),
    decreases lines.len(),
{
    if lines.len() > 0 && lines.last().len() == 0 {
        lemma_trimmed_is_prefix(lines.drop_last());
    }
}

/// Whether `c` is a line feed.
pub open spec fn is_line_feed(c: char) -> bool {
    c == '\n'
}

/// Whether `text` holds no line feed.
pub open spec fn has_no_feed(text: Seq<char>) -> bool {
    forall|i: int| 0 <= i < text.len() ==> !is_line_feed(#[trigger] text[i])
}

/// Whether no name of the graph `g` holds a line feed.
pub open spec fn graph_has_no_feed(g: Graph) -> bool {
    forall|i: int|
        0 <= i < g.len() ==> has_no_feed((#[trigger] g[i]).0) && forall|j: int|
            0 <= j < g[i].1.len() ==> has_no_feed(#[trigger] g[i].1[j])
}

/// A text without line feed can be a line.
pub proof fn lemma_no_feed_is_clean(text: Seq<char>)
    requires
        has_no_feed(text),
    ensures
        is_clean_line(text),
{
    if text.contains('\n') {
        let k = choose|k: int| 0 <= k < text.len() && text[k] == '\n';
        assert(is_line_feed(text[k]));
    }
}

/// Texts without line feed, put one after another, hold none.
pub proof fn lemma_no_feed_concat(a: Seq<char>, b: Seq<char>)
    requires
        has_no_feed(a),
        has_no_feed(b),
    ensures
        has_no_feed(a + b),
{
    assert forall|i: int| 0 <= i < (a + b).len() implies !is_line_feed(#[trigger] (a + b)[i]) by {
        if i < a.len() {
            assert((a + b)[i] == a[i]);
        } else {
            assert((a + b)[i] == b[i - a.len()]);
        }
    }
}

/// The fixed texts of a diagram block hold no line feed.
pub proof fn lemma_fixed_texts_have_no_feed()
    ensures
        has_no_feed("```mermaid"@),
        has_no_feed("%%dep"@),
        has_no_feed("graph TD"@),
        has_no_feed("  subgraph \" \""@),
        has_no_feed("  end"@),
        has_no_feed("```"@),
        has_no_feed("  "@),
        has_no_feed(" --> "@),
        has_no_feed("linkStyle "@),
        has_no_feed(" stroke:red;"@),
        has_no_feed(","@),
{
    reveal_strlit("```mermaid");
    reveal_strlit("%%dep");
    reveal_strlit("graph TD");
    reveal_strlit("  subgraph \" \"");
    reveal_strlit("  end");
    reveal_strlit("```");
    reveal_strlit("  ");
    reveal_strlit(" --> ");
    reveal_strlit("linkStyle ");
    reveal_strlit(" stroke:red;");
    reveal_strlit(",");
    assert forall|i: int| 0 <= i < 10 implies !is_line_feed(#[trigger] "```mermaid"@[i]) by {
        assert(i == 0 || i == 1 || i == 2 || i == 3 || i == 4 || i == 5 || i == 6 || i == 7 || i
            == 8 || i == 9);
    }
    assert forall|i: int| 0 <= i < 5 implies !is_line_feed(#[trigger] "%%dep"@[i]) by {
        assert(i == 0 || i == 1 || i == 2 || i == 3 || i == 4);
    }
    assert forall|i: int| 0 <= i < 8 implies !is_line_feed(#[trigger] "graph TD"@[i]) by {
        assert(i == 0 || i == 1 || i == 2 || i == 3 || i == 4 || i == 5 || i == 6 || i == 7);
    }
    assert forall|i: int| 0 <= i < 14 implies !is_line_feed(
        #[trigger] "  subgraph \" \""@[i],
    ) by {
        assert(i == 0 || i == 1 || i == 2 || i == 3 || i == 4 || i == 5 || i == 6 || i == 7 || i
            == 8 || i == 9 || i == 10 || i == 11 || i == 12 || i == 13);
    }
    assert forall|i: int| 0 <= i < 5 implies !is_line_feed(#[trigger] "  end"@[i]) by {
        assert(i == 0 || i == 1 || i == 2 || i == 3 || i == 4);
    }
    assert forall|i: int| 0 <= i < 3 implies !is_line_feed(#[trigger] "```"@[i]) by {
        assert(i == 0 || i == 1 || i == 2);
    }
    assert forall|i: int| 0 <= i < 2 implies !is_line_feed(#[trigger] "  "@[i]) by {
        assert(i == 0 || i == 1);
    }
    assert forall|i: int| 0 <= i < 5 implies !is_line_feed(#[trigger] " --> "@[i]) by {
        assert(i == 0 || i == 1 || i == 2 || i == 3 || i == 4);
    }
    assert forall|i: int| 0 <= i < 10 implies !is_line_feed(#[trigger] "linkStyle "@[i]) by {
        assert(i == 0 || i == 1 || i == 2 || i == 3 || i == 4 || i == 5 || i == 6 || i == 7 || i
            == 8 || i == 9);
    }
    assert forall|i: int| 0 <= i < 12 implies !is_line_feed(#[trigger] " stroke:red;"@[i]) by {
        assert(i == 0 || i == 1 || i == 2 || i == 3 || i == 4 || i == 5 || i == 6 || i == 7 || i
            == 8 || i == 9 || i == 10 || i == 11);
    }
    assert forall|i: int| 0 <= i < 1 implies !is_line_feed(#[trigger] ","@[i]) by {
        assert(i == 0);
    }
}

/// A number in decimal digits holds no line feed.
pub proof fn lemma_decimal_has_no_feed(n: nat)
    ensures
        has_no_feed(decimal(n)),
    decreases n,
{
    if n >= 10 {
        lemma_decimal_has_no_feed(n / 10);
        let digits = decimal(n / 10);
        assert forall|i: int| 0 <= i < decimal(n).len() implies !is_line_feed(
            #[trigger] decimal(n)[i],
        ) by {
            if i < digits.len() {
                assert(decimal(n)[i] == digits[i]);
            }
        }
    }
}

/// Texts without line feed, joined by one without, hold none.
pub proof fn lemma_join_has_no_feed(parts: Seq<Seq<char>>, sep: Seq<char>)
    requires
        has_no_feed(sep),
        forall|i: int| 0 <= i < parts.len() ==> has_no_feed(#[trigger] parts[i]),
    ensures
        has_no_feed(join_with(parts, sep)),
    decreases parts.len(),
{
    if parts.len() == 1 {
        assert(has_no_feed(parts[0]));
    } else if parts.len() > 1 {
        assert forall|i: int| 0 <= i < parts.drop_last().len() implies has_no_feed(
            #[trigger] parts.drop_last()[i],
        ) by {
            assert(parts.drop_last()[i] == parts[i]);
        }
        lemma_join_has_no_feed(parts.drop_last(), sep);
        assert(has_no_feed(parts[parts.len() - 1]));
        lemma_no_feed_concat(join_with(parts.drop_last(), sep), sep);
        lemma_no_feed_concat(join_with(parts.drop_last(), sep) + sep, parts.last());
    }
}

/// The numbers of a list, in decimal digits, hold no line feed.
pub proof fn lemma_decimals_have_no_feed(positions: Seq<nat>, i: int)
    requires
        0 <= i < decimals(positions).len(),
    ensures
        has_no_feed(decimals(positions)[i]),
    decreases positions.len(),
{
    if positions.len() > 0 {
        crate::diagram::lemma_decimals_len(positions.drop_last());
        if i < positions.len() - 1 {
            lemma_decimals_have_no_feed(positions.drop_last(), i);
        } else {
            lemma_decimal_has_no_feed(positions.last());
        }
    }
}

/// The edges from a source without line feed to targets without hold
/// none.
pub proof fn lemma_source_edges_have_no_feed(
    source: Seq<char>,
    targets: Seq<Seq<char>>,
    k: int,
)
    requires
        has_no_feed(source),
        forall|j: int| 0 <= j < targets.len() ==> has_no_feed(#[trigger] targets[j]),
        0 <= k < source_edges(source, targets).len(),
    ensures
        has_no_feed(source_edges(source, targets)[k].0),
        has_no_feed(source_edges(source, targets)[k].1),
    decreases targets.len(),
{
    if targets.len() > 0 {
        let before = source_edges(source, targets.drop_last());
        assert forall|j: int| 0 <= j < targets.drop_last().len() implies has_no_feed(
            #[trigger] targets.drop_last()[j],
        ) by {
            assert(targets.drop_last()[j] == targets[j]);
        }
        if k < before.len() {
            lemma_source_edges_have_no_feed(source, targets.drop_last(), k);
        } else {
            assert(has_no_feed(targets[targets.len() - 1]));
        }
    }
}

/// The edges of a graph without line feed hold none.
pub proof fn lemma_edges_have_no_feed(g: Graph, k: int)
    requires
        graph_has_no_feed(g),
        0 <= k < edges_of(g).len(),
    ensures
        has_no_feed(edges_of(g)[k].0),
        has_no_feed(edges_of(g)[k].1),
    decreases g.len(),
{
    if g.len() > 0 {
        let before = edges_of(g.drop_last());
        let last = g[g.len() - 1];
        assert(has_no_feed(last.0));
        assert forall|i: int| 0 <= i < g.drop_last().len() implies has_no_feed(
            (#[trigger] g.drop_last()[i]).0,
        ) && forall|j: int|
            0 <= j < g.drop_last()[i].1.len() ==> has_no_feed(
                #[trigger] g.drop_last()[i].1[j],
            ) by {
            assert(g.drop_last()[i] == g[i]);
        }
        if k < before.len() {
            lemma_edges_have_no_feed(g.drop_last(), k);
        } else {
            lemma_source_edges_have_no_feed(last.0, last.1, k - before.len());
        }
    }
}

/// The lines that draw edges without line feed hold none.
pub proof fn lemma_edge_lines_have_no_feed(edges: Seq<Edge>, j: int)
    requires
        forall|k: int|
            0 <= k < edges.len() ==> has_no_feed((#[trigger] edges[k]).0) && has_no_feed(
                edges[k].1,
            ),
        0 <= j < edge_lines(edges).len(),
    ensures
        has_no_feed(edge_lines(edges)[j]),
    decreases edges.len(),
{
    if edges.len() > 0 {
        lemma_edge_lines_len(edges.drop_last());
        if j < edges.len() - 1 {
            assert forall|k: int| 0 <= k < edges.drop_last().len() implies has_no_feed(
                (#[trigger] edges.drop_last()[k]).0,
            ) && has_no_feed(edges.drop_last()[k].1) by {
                assert(edges.drop_last()[k] == edges[k]);
            }
            lemma_edge_lines_have_no_feed(edges.drop_last(), j);
        } else {
            let e = edges[edges.len() - 1];
            lemma_fixed_texts_have_no_feed();
            lemma_no_feed_concat("  "@, e.0);
            lemma_no_feed_concat("  "@ + e.0, " --> "@);
            lemma_no_feed_concat("  "@ + e.0 + " --> "@, e.1);
        }
    }
}

/// Every line of the diagram block of a graph without line feed can be a
/// line.
pub proof fn lemma_block_is_clean(g: Graph, mark_circular: bool, j: int)
    requires
        graph_has_no_feed(g),
        0 <= j < diagram_block(g, mark_circular).len(),
    ensures
        is_clean_line(diagram_block(g, mark_circular)[j]),
{
    let block = diagram_block(g, mark_circular);
    let edges = edges_of(g);
    let lines = edge_lines(edges);
    let circular = circular_positions(g, edges);
    let e = lines.len() as int;
    lemma_fixed_texts_have_no_feed();
    assert(block_head().len() == 4);
    assert(has_no_feed(block[j])) by {
        if j < 4 {
            assert(block[j] == block_head()[j]);
        } else if j < 4 + e {
            assert(block[j] == lines[j - 4]);
            assert forall|k: int| 0 <= k < edges.len() implies has_no_feed(
                (#[trigger] edges[k]).0,
            ) && has_no_feed(edges[k].1) by {
                lemma_edges_have_no_feed(g, k);
            }
            lemma_edge_lines_have_no_feed(edges, j - 4);
        } else if j == 4 + e {
            assert(block[j] == "  end"@);
        } else if j == block.len() - 1 {
            assert(block[j] == "```"@);
        } else {
            assert(block[j] == link_style_line(circular));
            let marks = decimals(circular);
            assert forall|i: int| 0 <= i < marks.len() implies has_no_feed(#[trigger] marks[i]) by {
                lemma_decimals_have_no_feed(circular, i);
            }
            lemma_join_has_no_feed(marks, ","@);
            lemma_no_feed_concat("linkStyle "@, join_with(marks, ","@));
            lemma_no_feed_concat("linkStyle "@ + join_with(marks, ","@), " stroke:red;"@);
        }
    }
    lemma_no_feed_is_clean(block[j]);
}

/// The lines `lines` as they stand in a text: each as it is, with a line
/// feed after it.
pub open spec fn written(lines: Seq<Seq<char>>) -> Seq<char>
    decreases lines.len(),
{
    if lines.len() == 0 {
        Seq::empty()
    } else {
        written(lines.drop_last()) + lines.last() + "\n"@
    }
}

/// Written lines are the lines joined by line feeds, with one more line
/// feed at the end.
pub proof fn lemma_written_is_joined(lines: Seq<Seq<char>>)
    requires
        lines.len() >= 1,
    ensures
        written(lines) == join_with(lines, "\n"@) + "\n"@,
    decreases lines.len(),
{
    if lines.len() == 1 {
        assert(lines.drop_last().len() == 0);
        assert(written(lines.drop_last()) + lines.last() =~= lines[0]);
    } else {
        lemma_written_is_joined(lines.drop_last());
    }
}

/// Lines written one list after another are written as one list.
pub proof fn lemma_written_concat(a: Seq<Seq<char>>, b: Seq<Seq<char>>)
    ensures
        written(a + b) == written(a) + written(b),
    decreases b.len(),
{
    if b.len() == 0 {
        assert(a + b =~= a);
        assert(written(a) + written(b) =~= written(a));
    } else {
        assert((a + b).drop_last() =~= a + b.drop_last());
        assert((a + b).last() == b.last());
        lemma_written_concat(a, b.drop_last());
        assert(written(a + b) =~= written(a) + written(b));
    }
}

/// Bringing the diagram of a documentation file up to date keeps the text
/// around the block byte for byte. A text that ends with a line feed is
/// the bytes of the lines before its block, of the block, and of the lines
/// after it; the new text is the same bytes before, the bytes of the new
/// block, and the same bytes after, but for empty lines at the very end.
pub proof fn lemma_update_keeps_bytes(g: Graph, mark_circular: bool, text: Seq<char>)
    ensures
        updated_text(g, mark_circular, Some(text)) == written(
            lines_before_block(text_lines(text)),
        ) + written(diagram_block(g, mark_circular)) + written(
            without_empty_end(lines_after_block(text_lines(text))),
        ),
        text.len() > 0 && text.last() == '\n' && block_end(text_lines(text)) < text_lines(
            text,
        ).len() ==> text == written(lines_before_block(text_lines(text))) + written(
            text_lines(text).subrange(
                block_start(text_lines(text)),
                block_end(text_lines(text)) + 1,
            ),
        ) + written(lines_after_block(text_lines(text))),
{
    let lines = text_lines(text);
    let before = lines_before_block(lines);
    let after = lines_after_block(lines);
    let block = diagram_block(g, mark_circular);
    let trimmed = without_empty_end(after);
    lemma_block_shape(g, mark_circular);
    lemma_trim_after(before + block, after);
    let new = updated_lines(g, mark_circular, lines);
    assert(new == before + block + trimmed);
    lemma_written_is_joined(new);
    lemma_written_concat(before + block, trimmed);
    lemma_written_concat(before, block);
    lemma_first_starting_with(lines, "%%dep"@, 0);
    if text.len() > 0 && text.last() == '\n' && block_end(lines) < lines.len() {
        let start = block_start(lines);
        let end = block_end(lines);
        lemma_first_starting_with(lines, "```"@, start + 1);
        lemma_text_is_its_lines(text);
        lemma_split_on(text, '\n');
        assert(lines.len() >= 1);
        lemma_written_is_joined(lines);
        let middle = lines.subrange(start, end + 1);
        assert(lines =~= before + middle + after);
        lemma_written_concat(before + middle, after);
        lemma_written_concat(before, middle);
    }
}

/// The lines that the line `line` gives when it is written and read back:
/// the line itself, if it holds no line feed.
pub open spec fn read_back(line: Seq<char>) -> Seq<Seq<char>> {
    text_lines(line + "\n"@)
}

/// The lines that `lines` give when they are written and read back.
pub open spec fn all_read_back(lines: Seq<Seq<char>>) -> Seq<Seq<char>>
    decreases lines.len(),
{
    if lines.len() == 0 {
        Seq::empty()
    } else {
        all_read_back(lines.drop_last()) + read_back(lines.last())
    }
}

/// Whether the diagram block of `g` is found again in a text that holds
/// it: no line between its mark and its closing fence, written and read
/// back, gives a line that begins with three backticks. That is so unless
/// a name of a drawn edge holds a line feed with three backticks after it.
pub open spec fn block_reads_back(g: Graph, mark_circular: bool) -> bool {
    forall|j: int, i: int|
        2 <= j < diagram_block(g, mark_circular).len() - 1 && 0 <= i < read_back(
            diagram_block(g, mark_circular)[j],
        ).len() ==> !is_fence_line(#[trigger] read_back(diagram_block(g, mark_circular)[j])[i])
}

/// The lines of two texts, of which the first is empty or ends with a line
/// feed, are the lines of the texts put together.
pub proof fn lemma_lines_concat(a: Seq<char>, b: Seq<char>)
    requires
        a.len() == 0 || a.last() == '\n',
    ensures
        text_lines(a + b) == text_lines(a) + text_lines(b),
{
    if a.len() == 0 {
        assert(a + b =~= b);
        assert(text_lines(a) + text_lines(b) =~= text_lines(b));
    } else {
        crate::text::lemma_split_concat(a, b, '\n');
        lemma_split_on(a, '\n');
        lemma_split_on(b, '\n');
        let head = split_on(a, '\n');
        let tail = split_on(b, '\n');
        assert(head == split_on(a.drop_last(), '\n').push(Seq::<char>::empty()));
        assert(text_lines(a) == head.drop_last());
        let all = split_on(a + b, '\n');
        assert(all == head.drop_last() + tail);
        assert(all.last() == tail.last());
        if tail.last().len() > 0 {
            assert(text_lines(a + b) =~= text_lines(a) + text_lines(b));
        } else {
            assert(all.drop_last() =~= head.drop_last() + tail.drop_last());
        }
    }
}

/// Written lines are empty or end with a line feed.
pub proof fn lemma_written_ends(lines: Seq<Seq<char>>)
    ensures
        written(lines).len() == 0 || written(lines).last() == '\n',
{
    reveal_strlit("\n");
}

/// Lines that are written and read back are the lines that each of them
/// gives when it is written and read back.
pub proof fn lemma_lines_of_any_written(lines: Seq<Seq<char>>)
    ensures
        text_lines(written(lines)) == all_read_back(lines),
    decreases lines.len(),
{
    if lines.len() == 0 {
        assert(text_lines(Seq::<char>::empty()) =~= Seq::<Seq<char>>::empty());
    } else {
        lemma_lines_of_any_written(lines.drop_last());
        lemma_written_ends(lines.drop_last());
        lemma_lines_concat(written(lines.drop_last()), lines.last() + "\n"@);
        assert(written(lines) =~= written(lines.drop_last()) + (lines.last() + "\n"@));
    }
}

/// Reading back goes list by list.
pub proof fn lemma_read_back_concat(a: Seq<Seq<char>>, b: Seq<Seq<char>>)
    ensures
        all_read_back(a + b) == all_read_back(a) + all_read_back(b),
    decreases b.len(),
{
    if b.len() == 0 {
        assert(a + b =~= a);
        assert(all_read_back(a) + all_read_back(b) =~= all_read_back(a));
    } else {
        assert((a + b).drop_last() =~= a + b.drop_last());
        assert((a + b).last() == b.last());
        lemma_read_back_concat(a, b.drop_last());
        assert(all_read_back(a + b) =~= all_read_back(a) + all_read_back(b));
    }
}

/// Clean lines are read back as they are.
pub proof fn lemma_read_back_clean(lines: Seq<Seq<char>>)
    requires
        forall|i: int| 0 <= i < lines.len() ==> is_clean_line(#[trigger] lines[i]),
    ensures
        all_read_back(lines) == lines,
    decreases lines.len(),
{
    if lines.len() == 0 {
        assert(lines =~= Seq::<Seq<char>>::empty());
    } else {
        assert forall|i: int| 0 <= i < lines.drop_last().len() implies is_clean_line(
            #[trigger] lines.drop_last()[i],
        ) by {
            assert(lines.drop_last()[i] == lines[i]);
        }
        lemma_read_back_clean(lines.drop_last());
        let last = lines.last();
        assert(is_clean_line(lines[lines.len() - 1]));
        lemma_lines_of_written(seq![last]);
        assert(join_with(seq![last], "\n"@) == last);
        assert(read_back(last) == seq![last]);
        assert(lines.drop_last() + seq![last] =~= lines);
    }
}

/// Every line that is read back comes from one of the lines.
pub proof fn lemma_read_back_members(lines: Seq<Seq<char>>, i: int)
    requires
        0 <= i < all_read_back(lines).len(),
    ensures
        exists|j: int, k: int|
            0 <= j < lines.len() && 0 <= k < read_back(lines[j]).len() && all_read_back(lines)[i]
                == #[trigger] read_back(lines[j])[k],
    decreases lines.len(),
{
    if lines.len() > 0 {
        let before = all_read_back(lines.drop_last());
        if i < before.len() {
            lemma_read_back_members(lines.drop_last(), i);
            let (j, k) = choose|j: int, k: int|
                0 <= j < lines.drop_last().len() && 0 <= k < read_back(lines.drop_last()[j]).len()
                    && before[i] == #[trigger] read_back(lines.drop_last()[j])[k];
            assert(lines.drop_last()[j] == lines[j]);
            assert(all_read_back(lines)[i] == read_back(lines[j])[k]);
        } else {
            let j = lines.len() - 1;
            let k = i - before.len();
            assert(all_read_back(lines)[i] == read_back(lines[j])[k]);
        }
    }
}

/// Bringing the diagram of a documentation file up to date twice gives,
/// byte for byte, the text that it gives once, whatever the file holds,
/// as long as the block is found again in the text that holds it.
pub proof fn lemma_text_update_twice_of_any(
    g: Graph,
    mark_circular: bool,
    readme: Option<Seq<char>>,
)
    requires
        block_reads_back(g, mark_circular),
    ensures
        updated_text(g, mark_circular, Some(updated_text(g, mark_circular, readme)))
            == updated_text(g, mark_circular, readme),
{
    let old = optional_lines(readme);
    let before = lines_before_block(old);
    let after = lines_after_block(old);
    let block = diagram_block(g, mark_circular);
    let lines = updated_lines(g, mark_circular, old);
    let once = updated_text(g, mark_circular, readme);
    lemma_block_shape(g, mark_circular);
    lemma_trim_after(before + block, after);
    lemma_trimmed_is_prefix(after);
    lemma_trim_twice(after);
    let trimmed = without_empty_end(after);
    assert(lines == before + block + trimmed);
    lemma_written_is_joined(lines);
    assert(once == written(lines));
    // The surroundings are lines of a text, so they are read back as they are.
    lemma_first_starting_with(old, "%%dep"@, 0);
    if block_start(old) < old.len() {
        lemma_first_starting_with(old, "```"@, block_start(old) + 1);
    }
    assert forall|i: int| 0 <= i < before.len() implies is_clean_line(#[trigger] before[i]) by {
        assert(before[i] == old[i]);
        lemma_lines_hold_no_feed(readme->0, i);
    }
    assert forall|i: int| 0 <= i < before.len() implies !is_sigil_line(#[trigger] before[i]) by {
        assert(before[i] == old[i]);
    }
    assert forall|k: int| 0 <= k < trimmed.len() implies is_clean_line(#[trigger] trimmed[k]) by {
        assert(trimmed[k] == after[k]);
        assert(after[k] == old[block_end(old) + 1 + k]);
        lemma_lines_hold_no_feed(readme->0, block_end(old) + 1 + k);
    }
    lemma_read_back_clean(before);
    lemma_read_back_clean(trimmed);
    // The block is read back as its first two lines, what its body gives, and
    // its closing fence.
    let body = block.subrange(2, block.len() - 1);
    let ends = seq![block.last()];
    let head = seq![block[0], block[1]];
    assert(block =~= head + body + ends);
    lemma_fixed_texts_have_no_feed();
    lemma_no_feed_is_clean(block[0]);
    lemma_no_feed_is_clean(block[1]);
    lemma_no_feed_is_clean(block.last());
    lemma_read_back_clean(head);
    lemma_read_back_clean(ends);
    lemma_read_back_concat(head + body, ends);
    lemma_read_back_concat(head, body);
    lemma_read_back_concat(before + block, trimmed);
    lemma_read_back_concat(before, block);
    let read = all_read_back(body);
    lemma_lines_of_any_written(lines);
    let again = text_lines(once);
    assert(again == before + (head + read + ends) + trimmed);
    assert(again =~= before + seq![block[0], block[1]] + read + seq![block.last()] + trimmed);
    assert forall|i: int| 0 <= i < read.len() implies !is_fence_line(#[trigger] read[i]) by {
        lemma_read_back_members(body, i);
        let (j, k) = choose|j: int, k: int|
            0 <= j < body.len() && 0 <= k < read_back(body[j]).len() && read[i]
                == #[trigger] read_back(body[j])[k];
        assert(body[j] == block[j + 2]);
        assert(!is_fence_line(read_back(diagram_block(g, mark_circular)[j + 2])[k]));
    }
    lemma_update_keeps_surroundings(
        g,
        mark_circular,
        before,
        block[0],
        block[1],
        read,
        block.last(),
        trimmed,
    );
}

/// The diagram block of a graph of which no name holds a line feed is
/// found again in a text that holds it.
pub proof fn lemma_block_without_feed_reads_back(g: Graph, mark_circular: bool)
    requires
        graph_has_no_feed(g),
    ensures
        block_reads_back(g, mark_circular),
{
    let block = diagram_block(g, mark_circular);
    lemma_block_shape(g, mark_circular);
    assert forall|j: int, i: int|
        2 <= j < block.len() - 1 && 0 <= i < read_back(block[j]).len() implies !is_fence_line(
        #[trigger] read_back(diagram_block(g, mark_circular)[j])[i],
    ) by {
        lemma_block_is_clean(g, mark_circular, j);
        lemma_read_back_clean(seq![block[j]]);
        assert(all_read_back(seq![block[j]]) =~= read_back(block[j]));
    }
}

/// Bringing the diagram of a documentation file up to date twice gives,
/// byte for byte, the text that it gives once, whatever the file holds,
/// where no name of the graph holds a line feed.
pub proof fn lemma_text_update_twice(g: Graph, mark_circular: bool, readme: Option<Seq<char>>)
    requires
        graph_has_no_feed(g),
    ensures
        updated_text(g, mark_circular, Some(updated_text(g, mark_circular, readme)))
            == updated_text(g, mark_circular, readme),
{
    lemma_block_without_feed_reads_back(g, mark_circular);
    lemma_text_update_twice_of_any(g, mark_circular, readme);
}

} // verus!
