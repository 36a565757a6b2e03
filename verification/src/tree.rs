//! A snapshot of a module tree: directories, the imports of their source
//! files, their rules documents and their documentation files.
use vstd::prelude::*;
use crate::allows::Graph;
use crate::rules::{rules_view, RulesDocument};
use crate::text::text_view;

verus! {

/// A file of a directory, with the import paths found in it, as written and
/// in order of appearance.
#[derive(Clone, Debug, PartialEq, Eq)]
pub struct SourceFile {
    pub name: String,
    pub imports: Vec<String>,
}

/// A directory of the module tree. In a tree that is read from a file
/// system every name of a file or directory is one path component, and no
/// two entries of a directory have the same name.
#[derive(Debug, PartialEq, Eq)]
pub struct Directory {
    pub name: String,
    pub files: Vec<SourceFile>,
    pub rules: Option<RulesDocument>,
    pub readme: Option<String>,
    pub directories: Vec<Directory>,
}

/// A file as plain values: its name and its imports.
pub struct FileView {
    pub name: Seq<char>,
    pub imports: Seq<Seq<char>>,
}

/// A directory as plain values: its name, its files, its rules, the text of
/// its documentation file, and its child directories.
pub struct DirView {
    pub name: Seq<char>,
    pub files: Seq<FileView>,
    pub rules: Option<Graph>,
    pub readme: Option<Seq<char>>,
    pub directories: Seq<DirView>,
}

impl View for SourceFile {
    type V = FileView;

    open spec fn view(&self) -> FileView {
        FileView { name: self.name@, imports: self.imports.deep_view() }
    }
}

impl DeepView for SourceFile {
    type V = FileView;

    open spec fn deep_view(&self) -> FileView {
        self@
    }
}

/// The directory `dir` as plain values.
pub open spec fn dir_view(dir: Directory) -> DirView
    decreases dir, 0nat,
{
    DirView {
        name: dir.name@,
        files: dir.files.deep_view(),
        rules: rules_view(dir.rules),
        readme: text_view(dir.readme),
        directories: dirs_view(dir.directories@),
    }
}

/// The directories `dirs` as plain values, in order.
pub open spec fn dirs_view(dirs: Seq<Directory>) -> Seq<DirView>
    decreases dirs, 1nat,
{
    if dirs.len() == 0 {
        Seq::empty()
    } else {
        dirs_view(dirs.drop_last()).push(dir_view(dirs.last()))
    }
}

impl View for Directory {
    type V = DirView;

    open spec fn view(&self) -> DirView {
        dir_view(*self)
    }
}

impl DeepView for Directory {
    type V = DirView;

    open spec fn deep_view(&self) -> DirView {
        dir_view(*self)
    }
}

/// The view of a list of directories holds the view of each, in place.
pub proof fn lemma_dirs_view(dirs: Seq<Directory>)
    ensures
        dirs_view(dirs).len() == dirs.len(),
        forall|i: int| 0 <= i < dirs.len() ==> #[trigger] dirs_view(dirs)[i] == dir_view(dirs[i]),
    decreases dirs.len(),
{
    if dirs.len() > 0 {
        lemma_dirs_view(dirs.drop_last());
        assert forall|i: int| 0 <= i < dirs.len() implies #[trigger] dirs_view(dirs)[i]
            == dir_view(dirs[i]) by {
            if i < dirs.len() - 1 {
                assert(dirs.drop_last()[i] == dirs[i]);
            }
        }
    }
}

/// The position of the first of `dirs` that is named `name`, or the length
/// of `dirs` if none is.
pub open spec fn child_position(dirs: Seq<DirView>, name: Seq<char>) -> int
    decreases dirs.len(),
{
    if dirs.len() == 0 {
        0
    } else if dirs[0].name == name {
        0
    } else {
        1 + child_position(dirs.drop_first(), name)
    }
}

/// `child_position` gives the first position with the name, or the length.
pub proof fn lemma_child_position(dirs: Seq<DirView>, name: Seq<char>)
    ensures
        0 <= child_position(dirs, name) <= dirs.len(),
        child_position(dirs, name) < dirs.len() ==> dirs[child_position(dirs, name)].name == name,
        forall|k: int| 0 <= k < child_position(dirs, name) ==> (#[trigger] dirs[k]).name != name,
    decreases dirs.len(),
{
    if dirs.len() > 0 && dirs[0].name != name {
        let rest = dirs.drop_first();
        lemma_child_position(rest, name);
        assert forall|k: int| 0 <= k < child_position(dirs, name) implies (#[trigger] dirs[k]).name
            != name by {
            if k > 0 {
                assert(rest[k - 1] == dirs[k]);
            }
        }
    }
}

/// The child directory of `dir` that the name `name` leads to: the first
/// one with that name.
pub open spec fn child_named(dir: DirView, name: Seq<char>) -> Option<DirView> {
    let i = child_position(dir.directories, name);
    if 0 <= i < dir.directories.len() {
        Some(dir.directories[i])
    } else {
        None
    }
}

/// The directory that the names `path` lead to from `dir`, one child
/// directory after another.
pub open spec fn dir_at(dir: DirView, path: Seq<Seq<char>>) -> Option<DirView>
    decreases path.len(),
{
    if path.len() == 0 {
        Some(dir)
    } else {
        match child_named(dir, path[0]) {
            Some(child) => dir_at(child, path.drop_first()),
            None => None,
        }
    }
}

/// One more name at the end of a path leads to a child of where the path
/// led.
pub proof fn lemma_dir_at_push(dir: DirView, path: Seq<Seq<char>>, name: Seq<char>)
    ensures
        dir_at(dir, path.push(name)) == match dir_at(dir, path) {
            Some(d) => child_named(d, name),
            None => None,
        },
    decreases path.len(),
{
    let longer = path.push(name);
    if path.len() == 0 {
        assert(longer.drop_first() =~= Seq::<Seq<char>>::empty());
        assert(longer[0] == name);
        match child_named(dir, name) {
            Some(child) => {
                assert(dir_at(child, longer.drop_first()) == Some(child));
            },
            None => {},
        }
    } else {
        assert(longer[0] == path[0]);
        assert(longer.drop_first() =~= path.drop_first().push(name));
        match child_named(dir, path[0]) {
            Some(child) => {
                lemma_dir_at_push(child, path.drop_first(), name);
            },
            None => {},
        }
    }
}

/// Where a path leads, every shorter beginning of it leads somewhere too.
pub proof fn lemma_dir_at_prefix(dir: DirView, path: Seq<Seq<char>>, n: int)
    requires
        0 <= n <= path.len(),
        dir_at(dir, path) is Some,
    ensures
        dir_at(dir, path.take(n)) is Some,
    decreases path.len(),
{
    if n == 0 {
        assert(path.take(0) =~= Seq::<Seq<char>>::empty());
    } else {
        let child = child_named(dir, path[0])->0;
        assert(path.take(n)[0] == path[0]);
        assert(path.take(n).drop_first() =~= path.drop_first().take(n - 1));
        lemma_dir_at_prefix(child, path.drop_first(), n - 1);
    }
}

/// How many levels of directories `dir` has, itself included.
pub open spec fn height(dir: DirView) -> nat
    decreases dir,
{
    1 + max_height(dir.directories)
}

/// The greatest height among `dirs`, or nothing if there are none.
pub open spec fn max_height(dirs: Seq<DirView>) -> nat
    decreases dirs,
{
    if dirs.len() == 0 {
        0
    } else {
        let h = height(dirs.last());
        let rest = max_height(dirs.drop_last());
        if h > rest {
            h
        } else {
            rest
        }
    }
}

/// No directory is taller than the tallest of the list it stands in.
pub proof fn lemma_max_height(dirs: Seq<DirView>, i: int)
    requires
        0 <= i < dirs.len(),
    ensures
        height(dirs[i]) <= max_height(dirs),
    decreases dirs.len(),
{
    if i < dirs.len() - 1 {
        assert(dirs.drop_last()[i] == dirs[i]);
        lemma_max_height(dirs.drop_last(), i);
    }
}

/// A child directory is less tall than its parent.
pub proof fn lemma_child_height(dir: DirView, name: Seq<char>)
    requires
        child_named(dir, name) is Some,
    ensures
        height(child_named(dir, name)->0) < height(dir),
{
    lemma_child_position(dir.directories, name);
    lemma_max_height(dir.directories, child_position(dir.directories, name));
}

/// The position of the first child directory of `dir` that is named `name`.
pub fn find_child(dir: &Directory, name: &str) -> (r: Option<usize>)
    ensures
        match r {
            Some(i) => i == child_position(dir@.directories, name@) && i < dir.directories@.len()
                && child_named(dir@, name@) == Some(dir.directories@[i as int]@),
            None => child_named(dir@, name@) is None,
        },
{
    let ghost dirs = dir@.directories;
    let mut i: usize = 0;
    proof {
        lemma_dirs_view(dir.directories@);
        assert(dirs.skip(0) =~= dirs);
    }
    while i < dir.directories.len()
        invariant
            i <= dir.directories.len(),
            dirs == dir@.directories,
            dirs.len() == dir.directories@.len(),
            forall|k: int| 0 <= k < dirs.len() ==> #[trigger] dirs[k] == dir_view(dir.directories@[k]),
            child_position(dirs, name@) == i + child_position(dirs.skip(i as int), name@),
        decreases dir.directories.len() - i,
    {
        proof {
            assert(dirs.skip(i as int)[0] == dirs[i as int]);
            assert(dirs.skip(i as int).drop_first() =~= dirs.skip(i + 1));
        }
        if crate::text::text_eq(dir.directories[i].name.as_str(), name) {
            return Some(i);
        }
        i += 1;
    }
    proof {
        assert(dirs.skip(i as int).len() == 0);
    }
    None
}

/// The directory that the names `path` lead to from `root`.
pub fn lookup<'a>(root: &'a Directory, path: &Vec<String>) -> (r: Option<&'a Directory>)
    ensures
        match r {
            Some(d) => dir_at(root@, path.deep_view()) == Some(d@),
            None => dir_at(root@, path.deep_view()) is None,
        },
{
    let ghost names = path.deep_view();
    let mut current: &Directory = root;
    let mut k: usize = 0;
    proof {
        assert(names.skip(0) =~= names);
    }
    while k < path.len()
        invariant
            k <= path.len(),
            names == path.deep_view(),
            dir_at(root@, names) == dir_at(current@, names.skip(k as int)),
        decreases path.len() - k,
    {
        proof {
            assert(names.skip(k as int)[0] == names[k as int]);
            assert(names.skip(k as int).drop_first() =~= names.skip(k + 1));
        }
        match find_child(current, path[k].as_str()) {
            Some(i) => {
                current = &current.directories[i];
            },
            None => {
                return None;
            },
        }
        k += 1;
    }
    proof {
        assert(names.skip(k as int).len() == 0);
    }
    Some(current)
}

/// The tree `dir` with the rules of the directory at `path` replaced by
/// `rules`. Where `path` leads to no directory, the tree is as it was.
pub open spec fn with_rules_at(dir: DirView, path: Seq<Seq<char>>, rules: Option<Graph>) -> DirView
    decreases path.len(),
{
    if path.len() == 0 {
        DirView { rules, ..dir }
    } else {
        let i = child_position(dir.directories, path[0]);
        if 0 <= i < dir.directories.len() {
            DirView {
                directories: dir.directories.update(
                    i,
                    with_rules_at(dir.directories[i], path.drop_first(), rules),
                ),
                ..dir
            }
        } else {
            dir
        }
    }
}

/// Replaces the rules of the directory that `path[from..]` leads to from
/// `dir`.
fn set_rules_from(dir: &mut Directory, path: &Vec<String>, from: usize, rules: Option<RulesDocument>)
    requires
        from <= path.len(),
    ensures
        final(dir)@ == with_rules_at(
            old(dir)@,
            path.deep_view().skip(from as int),
            rules_view(rules),
        ),
    decreases path.len() - from,
{
    let ghost names = path.deep_view().skip(from as int);
    let ghost before = dir@;
    if from >= path.len() {
        dir.rules = rules;
        assert(dir@ == (DirView { rules: rules_view(rules), ..before }));
        return ;
    }
    proof {
        assert(names[0] == path.deep_view()[from as int]);
        assert(names.drop_first() =~= path.deep_view().skip(from + 1));
    }
    match find_child(dir, path[from].as_str()) {
        None => {},
        Some(i) => {
            let ghost children = dir.directories@;
            proof {
                lemma_dirs_view(children);
            }
            set_rules_from(&mut dir.directories[i], path, from + 1, rules);
            proof {
                let after = dir.directories@;
                lemma_dirs_view(after);
                assert(after =~= children.update(i as int, after[i as int]));
                assert(dirs_view(after) =~= dirs_view(children).update(
                    i as int,
                    dir_view(after[i as int]),
                ));
            }
        },
    }
}

impl Directory {
    /// Replaces the rules of the directory at `path` by `rules`. Where
    /// `path` leads to no directory, nothing changes.
    pub fn set_rules(&mut self, path: &Vec<String>, rules: Option<RulesDocument>)
        ensures
            final(self)@ == with_rules_at(old(self)@, path.deep_view(), rules_view(rules)),
    {
        proof {
            assert(path.deep_view().skip(0) =~= path.deep_view());
        }
        set_rules_from(self, path, 0, rules);
    }
}

} // verus!
