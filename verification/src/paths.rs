//! Paths as text with `/` between components, and as lists of components.
use vstd::prelude::*;
use crate::text::{join_with, lemma_split_on, split_on, split_text};

verus! {

/// The pieces of `s` between its `/` characters. There is always at least
/// one piece; pieces may be empty.
pub open spec fn segments(s: Seq<char>) -> Seq<Seq<char>> {
    split_on(s, '/')
}

/// The text `[.]`.
pub open spec fn dot() -> Seq<char> {
    seq!['.']
}

/// The text `[..]`.
pub open spec fn dot_dot() -> Seq<char> {
    seq!['.', '.']
}

/// Whether a segment counts as a component wherever it stands: it is
/// neither empty nor `.`.
pub open spec fn is_component(seg: Seq<char>) -> bool {
    seg.len() > 0 && seg != dot()
}

/// Whether a component names a file or directory: it is not empty, not `.`
/// and not `..`.
pub open spec fn is_name(seg: Seq<char>) -> bool {
    seg.len() > 0 && seg != dot() && seg != dot_dot()
}

/// The segments of `segs` that count as components, in order.
pub open spec fn kept_segments(segs: Seq<Seq<char>>) -> Seq<Seq<char>>
    decreases segs.len(),
{
    if segs.len() == 0 {
        Seq::empty()
    } else {
        let before = kept_segments(segs.drop_last());
        if is_component(segs.last()) {
            before.push(segs.last())
        } else {
            before
        }
    }
}

/// Whether the first of the segments `segs` is a component. It is one when
/// it is not empty (a leading `.` counts), and also when it is empty and the
/// text goes on, which is the mark of a path that starts with `/`.
pub open spec fn keeps_first(segs: Seq<Seq<char>>) -> bool {
    segs.len() >= 1 && (segs[0].len() > 0 || segs.len() > 1)
}

/// The components of the path `s`. Repeated and trailing `/` are ignored,
/// and so is `.` except at the start. A path that starts with `/` has the
/// empty text as its first component.
pub open spec fn components(s: Seq<char>) -> Seq<Seq<char>> {
    let segs = segments(s);
    if keeps_first(segs) {
        seq![segs[0]] + kept_segments(segs.skip(1))
    } else {
        Seq::empty()
    }
}

/// The components `comps` written as one path, with `/` between them.
pub open spec fn join_path(comps: Seq<Seq<char>>) -> Seq<char> {
    join_with(comps, seq!['/'])
}

/// Whether the path `path` begins with the path `prefix`, component by
/// component.
pub open spec fn path_begins_with(path: Seq<char>, prefix: Seq<char>) -> bool {
    components(prefix).is_prefix_of(components(path))
}

/// The pieces of `s` between its `/` characters.
pub fn split_segments(s: &str) -> (r: Vec<String>)
    ensures
        r.deep_view() == segments(s@),
{
    split_text(s, '/')
}

/// Whether a segment counts as a component wherever it stands.
pub fn segment_is_component(seg: &str) -> (r: bool)
    ensures
        r == is_component(seg@),
{
    proof {
        reveal_strlit(".");
        assert("."@ =~= dot());
    }
    !seg.is_empty() && !crate::text::text_eq(seg, ".")
}

/// Whether a component names a file or directory.
pub fn component_is_name(seg: &str) -> (r: bool)
    ensures
        r == is_name(seg@),
{
    proof {
        reveal_strlit(".");
        reveal_strlit("..");
        assert("."@ =~= dot());
        assert(".."@ =~= dot_dot());
    }
    !seg.is_empty() && !crate::text::text_eq(seg, ".") && !crate::text::text_eq(seg, "..")
}

/// The components of the path `s`.
pub fn path_components(s: &str) -> (r: Vec<String>)
    ensures
        r.deep_view() == components(s@),
{
    let segs = split_segments(s);
    proof {
        lemma_split_on(s@, '/');
    }
    let mut out: Vec<String> = Vec::new();
    if segs[0].as_str().is_empty() && segs.len() == 1 {
        assert(out.deep_view() =~= Seq::<Seq<char>>::empty());
        return out;
    }
    out.push(segs[0].clone());
    let ghost all = segs.deep_view();
    let mut k: usize = 1;
    proof {
        assert(all.subrange(1, 1) =~= Seq::<Seq<char>>::empty());
        assert(out.deep_view() =~= seq![all[0]] + kept_segments(all.subrange(1, 1)));
    }
    while k < segs.len()
        invariant
            1 <= k <= segs.len(),
            all == segs.deep_view(),
            out.deep_view() == seq![all[0]] + kept_segments(all.subrange(1, k as int)),
        decreases segs.len() - k,
    {
        let ghost done = out.deep_view();
        proof {
            assert(all.subrange(1, k + 1).drop_last() =~= all.subrange(1, k as int));
            assert(all.subrange(1, k + 1).last() == all[k as int]);
        }
        if segment_is_component(segs[k].as_str()) {
            out.push(segs[k].clone());
            proof {
                assert(out.deep_view() =~= done.push(all[k as int]));
                assert(out.deep_view() =~= seq![all[0]] + kept_segments(all.subrange(1, k + 1)));
            }
        }
        k += 1;
    }
    proof {
        assert(all.subrange(1, k as int) =~= all.skip(1));
    }
    out
}

/// The components `comps` written as one path, with `/` between them.
pub fn join_components(comps: &Vec<String>) -> (r: String)
    ensures
        r@ == join_path(comps.deep_view()),
{
    proof {
        reveal_strlit("/");
        assert("/"@ =~= seq!['/']);
    }
    crate::text::join_texts(comps, "/")
}

/// Whether the component list `comps` begins with the list `prefix`.
pub fn components_begin_with(comps: &Vec<String>, prefix: &Vec<String>) -> (r: bool)
    ensures
        r == prefix.deep_view().is_prefix_of(comps.deep_view()),
{
    if prefix.len() > comps.len() {
        return false;
    }
    let mut k: usize = 0;
    while k < prefix.len()
        invariant
            k <= prefix.len() <= comps.len(),
            forall|j: int| 0 <= j < k ==> prefix.deep_view()[j] == comps.deep_view()[j],
        decreases prefix.len() - k,
    {
        if prefix[k] != comps[k] {
            assert(prefix.deep_view()[k as int] != comps.deep_view()[k as int]);
            return false;
        }
        k += 1;
    }
    assert(prefix.deep_view() =~= comps.deep_view().subrange(0, prefix.len() as int));
    true
}

/// Whether the path `path` begins with the path `prefix`, component by
/// component.
pub fn path_starts_with(path: &str, prefix: &str) -> (r: bool)
    ensures
        r == path_begins_with(path@, prefix@),
{
    let a = path_components(path);
    let b = path_components(prefix);
    components_begin_with(&a, &b)
}

/// Whether the path `s` is written as names with one `/` between each:
/// no piece of it is empty, `.` or `..`.
pub open spec fn is_plain_path(s: Seq<char>) -> bool {
    forall|i: int| 0 <= i < segments(s).len() ==> is_name(#[trigger] segments(s)[i])
}

/// Where every segment is a component, all are kept.
pub proof fn lemma_kept_segments_all(segs: Seq<Seq<char>>)
    requires
        forall|i: int| 0 <= i < segs.len() ==> is_component(#[trigger] segs[i]),
    ensures
        kept_segments(segs) == segs,
    decreases segs.len(),
{
    if segs.len() > 0 {
        assert forall|i: int| 0 <= i < segs.drop_last().len() implies is_component(
            #[trigger] segs.drop_last()[i],
        ) by {
            assert(segs.drop_last()[i] == segs[i]);
        }
        lemma_kept_segments_all(segs.drop_last());
        assert(segs.drop_last().push(segs.last()) =~= segs);
    } else {
        assert(segs =~= Seq::<Seq<char>>::empty());
    }
}

/// The components of a plain path are its segments, all of them names, and
/// joined they give the path again.
pub proof fn lemma_plain_path(s: Seq<char>)
    requires
        is_plain_path(s),
    ensures
        components(s) == segments(s),
        components(s).len() >= 1,
        join_path(components(s)) == s,
{
    let segs = segments(s);
    lemma_split_on(s, '/');
    crate::text::lemma_join_split(s, '/');
    assert(is_name(segs[0]));
    assert forall|i: int| 0 <= i < segs.skip(1).len() implies is_component(
        #[trigger] segs.skip(1)[i],
    ) by {
        assert(segs.skip(1)[i] == segs[i + 1]);
        assert(is_name(segs[i + 1]));
    }
    lemma_kept_segments_all(segs.skip(1));
    assert(seq![segs[0]] + segs.skip(1) =~= segs);
}

/// Whether `name` can name a file or directory: it is a name and holds no
/// `/`.
pub open spec fn is_plain_name(name: Seq<char>) -> bool {
    is_name(name) && !name.contains('/')
}

/// Whether `name` can name a file or directory.
pub fn name_is_plain(name: &str) -> (r: bool)
    ensures
        r == is_plain_name(name@),
{
    if !component_is_name(name) {
        return false;
    }
    let cs = crate::text::chars_of(name);
    let mut i: usize = 0;
    while i < cs.len()
        invariant
            i <= cs.len(),
            cs@ == name@,
            forall|k: int| 0 <= k < i ==> cs@[k] != '/',
        decreases cs.len() - i,
    {
        if cs[i] == '/' {
            assert(name@[i as int] == '/');
            return false;
        }
        i += 1;
    }
    true
}

/// The components of a path written from plain names are those names.
pub proof fn lemma_components_of_join(names: Seq<Seq<char>>)
    requires
        names.len() >= 1,
        forall|i: int| 0 <= i < names.len() ==> is_plain_name(#[trigger] names[i]),
    ensures
        components(join_path(names)) == names,
{
    crate::text::lemma_split_join(names, '/');
    let path = join_path(names);
    assert(segments(path) == names);
    assert(is_plain_name(names[0]));
    assert forall|i: int| 0 <= i < names.skip(1).len() implies is_component(
        #[trigger] names.skip(1)[i],
    ) by {
        assert(names.skip(1)[i] == names[i + 1]);
        assert(is_plain_name(names[i + 1]));
    }
    lemma_kept_segments_all(names.skip(1));
    assert(seq![names[0]] + names.skip(1) =~= names);
}

} // verus!
