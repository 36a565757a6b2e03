//! The path normalizer: from an import as written and the directory of the
//! importing file, the path of the import relative to the root of the tree.
use vstd::prelude::*;
use crate::paths::{
    component_is_name, components, dot, dot_dot, is_name, is_plain_path, join_components,
    join_path, lemma_plain_path, path_components, segments,
};
use crate::text::{chars_of, clone_names, text_eq};
use crate::tree::{dir_at, lookup, Directory, DirView};

verus! {

/// Whether `c` is a white space character.
pub open spec fn is_white_space(c: char) -> bool {
    let n = c as int;
    ||| 0x9 <= n <= 0xd
    ||| n == 0x20
    ||| n == 0x85
    ||| n == 0xa0
    ||| n == 0x1680
    ||| 0x2000 <= n <= 0x200a
    ||| n == 0x2028
    ||| n == 0x2029
    ||| n == 0x202f
    ||| n == 0x205f
    ||| n == 0x3000
}

/// Whether `s` is empty or holds white space only.
pub open spec fn is_blank(s: Seq<char>) -> bool {
    forall|i: int| 0 <= i < s.len() ==> is_white_space(#[trigger] s[i])
}

/// Whether `c` is a white space character.
pub fn char_is_white_space(c: char) -> (r: bool)
    ensures
        r == is_white_space(c),
{
    let n: u32 = c as u32;
    (0x9 <= n && n <= 0xd) || n == 0x20 || n == 0x85 || n == 0xa0 || n == 0x1680 || (0x2000 <= n
        && n <= 0x200a) || n == 0x2028 || n == 0x2029 || n == 0x202f || n == 0x205f || n == 0x3000
}

/// Whether `s` is empty or holds white space only.
pub fn text_is_blank(s: &str) -> (r: bool)
    ensures
        r == is_blank(s@),
{
    let cs = chars_of(s);
    let mut i: usize = 0;
    while i < cs.len()
        invariant
            i <= cs.len(),
            cs@ == s@,
            forall|k: int| 0 <= k < i ==> is_white_space(#[trigger] cs@[k]),
        decreases cs.len() - i,
    {
        if !char_is_white_space(cs[i]) {
            assert(!is_white_space(s@[i as int]));
            return false;
        }
        i += 1;
    }
    true
}

/// Where the steps `steps` lead from the directory `at`, both relative to
/// the root: a step `..` goes up one level, any other step goes into the
/// child directory of that name. There is no result where a step would
/// leave the tree or lead to a directory that does not exist.
pub open spec fn walk(root: DirView, at: Seq<Seq<char>>, steps: Seq<Seq<char>>) -> Option<
    Seq<Seq<char>>,
>
    decreases steps.len(),
{
    if steps.len() == 0 {
        Some(at)
    } else if steps[0] == dot_dot() {
        if at.len() == 0 {
            None
        } else {
            walk(root, at.drop_last(), steps.drop_first())
        }
    } else {
        let next = at.push(steps[0]);
        if dir_at(root, next) is Some {
            walk(root, next, steps.drop_first())
        } else {
            None
        }
    }
}

/// The steps from the root that the import `import`, written in a file of
/// the directory `current`, asks for. An import that starts with `.` is
/// relative to `current`, any other to the root.
pub open spec fn import_steps(import: Seq<char>, current: Seq<Seq<char>>) -> Seq<Seq<char>> {
    let comps = components(import);
    if import.len() > 0 && import[0] == '.' {
        if comps.len() > 0 && comps[0] == dot() {
            current + comps.drop_first()
        } else {
            current + comps
        }
    } else {
        comps
    }
}

/// Whether the import is written as an absolute path, which starts with `/`.
pub open spec fn is_absolute(import: Seq<char>) -> bool {
    components(import).len() > 0 && components(import)[0].len() == 0
}

/// The import `import`, written in a file of the directory `current`, as a
/// path relative to the root: the directory part resolved step by step in
/// the tree `root`, then the last component.
///
/// The import comes back as it is written where it is blank, where it is an
/// absolute path, and where its directory part would leave the tree or
/// does not exist in it.
pub open spec fn canonical_import(import: Seq<char>, root: DirView, current: Seq<Seq<char>>) -> Seq<
    char,
> {
    if is_blank(import) || is_absolute(import) {
        import
    } else {
        let steps = import_steps(import, current);
        if steps.len() == 0 {
            Seq::empty()
        } else {
            match walk(root, Seq::empty(), steps.drop_last()) {
                None => import,
                Some(dir) => if is_name(steps.last()) {
                    join_path(dir.push(steps.last()))
                } else {
                    join_path(dir)
                },
            }
        }
    }
}

/// The import `import`, written in a file of the directory `current`, as a
/// path relative to the root of the tree `root`; or as it is written where
/// it does not lead to a directory of the tree.
pub fn canonicalize_import_path(import: &str, root: &Directory, current: &Vec<String>) -> (r:
    String)
    ensures
        r@ == canonical_import(import@, root@, current.deep_view()),
{
    if text_is_blank(import) {
        return String::from_str(import);
    }
    let comps = path_components(import);
    if comps.len() > 0 && comps[0].as_str().is_empty() {
        return String::from_str(import);
    }
    let cs = chars_of(import);
    let mut steps: Vec<String>;
    let relative = cs.len() > 0 && cs[0] == '.';
    proof {
        reveal_strlit(".");
        assert("."@ =~= dot());
    }
    if relative {
        steps = clone_names(current);
        let skip: usize = if comps.len() > 0 && text_eq(comps[0].as_str(), ".") {
            1
        } else {
            0
        };
        let ghost base = steps.deep_view();
        let mut k: usize = skip;
        while k < comps.len()
            invariant
                skip <= k <= comps.len(),
                steps.deep_view() == base + comps.deep_view().subrange(skip as int, k as int),
            decreases comps.len() - k,
        {
            let ghost done = steps.deep_view();
            steps.push(comps[k].clone());
            proof {
                assert(steps.deep_view() =~= done.push(comps.deep_view()[k as int]));
                assert(comps.deep_view().subrange(skip as int, k + 1) =~= comps.deep_view().subrange(
                    skip as int,
                    k as int,
                ).push(comps.deep_view()[k as int]));
            }
            k += 1;
        }
        proof {
            if skip == 1 {
                assert(comps.deep_view().subrange(1, k as int) =~= comps.deep_view().drop_first());
            } else {
                assert(comps.deep_view().subrange(0, k as int) =~= comps.deep_view());
            }
        }
    } else {
        steps = comps;
    }
    assert(steps.deep_view() == import_steps(import@, current.deep_view()));
    if steps.len() == 0 {
        return String::new();
    }
    let ghost all = steps.deep_view();
    let last = steps.pop().unwrap();
    proof {
        assert(steps.deep_view() =~= all.drop_last());
        assert(last@ == all.last());
    }
    match walk_steps(root, &steps) {
        None => String::from_str(import),
        Some(mut dir) => {
            if component_is_name(last.as_str()) {
                let ghost before = dir.deep_view();
                dir.push(last);
                proof {
                    assert(dir.deep_view() =~= before.push(all.last()));
                }
            }
            join_components(&dir)
        },
    }
}

/// Where the steps `steps` lead from the root of the tree.
pub fn walk_steps(root: &Directory, steps: &Vec<String>) -> (r: Option<Vec<String>>)
    ensures
        match r {
            Some(dir) => walk(root@, Seq::empty(), steps.deep_view()) == Some(dir.deep_view()),
            None => walk(root@, Seq::empty(), steps.deep_view()) is None,
        },
{
    let ghost all = steps.deep_view();
    let mut at: Vec<String> = Vec::new();
    let mut k: usize = 0;
    proof {
        reveal_strlit("..");
        assert(".."@ =~= dot_dot());
        assert(all.skip(0) =~= all);
        assert(at.deep_view() =~= Seq::<Seq<char>>::empty());
    }
    while k < steps.len()
        invariant
            k <= steps.len(),
            all == steps.deep_view(),
            ".."@ == dot_dot(),
            walk(root@, Seq::empty(), all) == walk(root@, at.deep_view(), all.skip(k as int)),
        decreases steps.len() - k,
    {
        let ghost here = at.deep_view();
        proof {
            assert(all.skip(k as int)[0] == all[k as int]);
            assert(all.skip(k as int).drop_first() =~= all.skip(k + 1));
        }
        if text_eq(steps[k].as_str(), "..") {
            if at.len() == 0 {
                return None;
            }
            at.pop();
            proof {
                assert(at.deep_view() =~= here.drop_last());
            }
        } else {
            at.push(steps[k].clone());
            proof {
                assert(at.deep_view() =~= here.push(all[k as int]));
            }
            if lookup(root, &at).is_none() {
                return None;
            }
        }
        k += 1;
    }
    proof {
        assert(all.skip(k as int).len() == 0);
    }
    Some(at)
}

/// Steps that are all names lead, if they lead anywhere, to the path that
/// they spell out.
pub proof fn lemma_walk_names(root: DirView, at: Seq<Seq<char>>, steps: Seq<Seq<char>>)
    requires
        forall|i: int| 0 <= i < steps.len() ==> is_name(#[trigger] steps[i]),
    ensures
        walk(root, at, steps) matches Some(dir) ==> dir == at + steps,
    decreases steps.len(),
{
    if steps.len() == 0 {
        assert(at + steps =~= at);
    } else {
        assert(is_name(steps[0]));
        let next = at.push(steps[0]);
        assert forall|i: int| 0 <= i < steps.drop_first().len() implies is_name(
            #[trigger] steps.drop_first()[i],
        ) by {
            assert(steps.drop_first()[i] == steps[i + 1]);
        }
        lemma_walk_names(root, next, steps.drop_first());
        assert(next + steps.drop_first() =~= at + steps);
    }
}

/// An import that is already written as a path from the root comes back
/// unchanged: one that does not start with `.` and is made of names with
/// one `/` between each.
pub proof fn lemma_root_relative_import_unchanged(
    import: Seq<char>,
    root: DirView,
    current: Seq<Seq<char>>,
)
    requires
        is_plain_path(import),
        import.len() > 0 ==> import[0] != '.',
    ensures
        canonical_import(import, root, current) == import,
{
    if !is_blank(import) {
        lemma_plain_path(import);
        let comps = components(import);
        assert(is_name(segments(import)[0]));
        assert(!is_absolute(import));
        let steps = import_steps(import, current);
        assert(steps == comps);
        let dirs = steps.drop_last();
        assert forall|i: int| 0 <= i < dirs.len() implies is_name(#[trigger] dirs[i]) by {
            assert(dirs[i] == segments(import)[i]);
        }
        lemma_walk_names(root, Seq::empty(), dirs);
        assert(is_name(segments(import)[steps.len() - 1]));
        match walk(root, Seq::empty(), dirs) {
            None => {},
            Some(dir) => {
                assert(dir =~= dirs);
                assert(dir.push(steps.last()) =~= comps);
            },
        }
    }
}

} // verus!
