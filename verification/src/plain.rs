//! Trees whose names are plain: every directory and file name is one path
//! component, as in every tree that is read from a file system.
use vstd::prelude::*;
use crate::RULES_FILE_NAME;
use crate::allows::Graph;
use crate::paths::{dot, dot_dot, is_plain_name, name_is_plain};
use crate::tree::{
    child_position, dir_at, dir_view, height, lemma_child_position, lemma_dirs_view,
    lemma_max_height, with_rules_at, Directory, DirView,
};

verus! {

/// Whether every name of a file or directory in the tree below `dir` is
/// plain. The name of `dir` itself is left aside: it has no part in any
/// path.
pub open spec fn tree_plain(dir: DirView) -> bool
    decreases dir,
{
    &&& forall|i: int| 0 <= i < dir.files.len() ==> is_plain_name((#[trigger] dir.files[i]).name)
    &&& forall|i: int|
        0 <= i < dir.directories.len() ==> is_plain_name((#[trigger] dir.directories[i]).name)
            && tree_plain(dir.directories[i])
}

/// In a plain tree, a path that leads to a directory is made of plain
/// names, and the tree below that directory is plain.
pub proof fn lemma_plain_dir_at(root: DirView, path: Seq<Seq<char>>)
    requires
        tree_plain(root),
        dir_at(root, path) is Some,
    ensures
        tree_plain(dir_at(root, path)->0),
        forall|i: int| 0 <= i < path.len() ==> is_plain_name(#[trigger] path[i]),
    decreases path.len(),
{
    if path.len() > 0 {
        let at = child_position(root.directories, path[0]);
        lemma_child_position(root.directories, path[0]);
        let child = root.directories[at];
        assert(is_plain_name(child.name) && tree_plain(child));
        lemma_plain_dir_at(child, path.drop_first());
        assert forall|i: int| 0 <= i < path.len() implies is_plain_name(#[trigger] path[i]) by {
            if i > 0 {
                assert(path.drop_first()[i - 1] == path[i]);
            }
        }
    }
}

/// A plain tree stays plain when the rules of one directory are replaced.
pub proof fn lemma_with_rules_plain(root: DirView, path: Seq<Seq<char>>, rules: Option<Graph>)
    requires
        tree_plain(root),
    ensures
        tree_plain(with_rules_at(root, path, rules)),
    decreases path.len(),
{
    let new = with_rules_at(root, path, rules);
    if path.len() == 0 {
        assert forall|i: int| 0 <= i < new.directories.len() implies is_plain_name(
            (#[trigger] new.directories[i]).name,
        ) && tree_plain(new.directories[i]) by {
            assert(new.directories[i] == root.directories[i]);
        }
    } else {
        let at = child_position(root.directories, path[0]);
        if 0 <= at < root.directories.len() {
            let child = root.directories[at];
            assert(is_plain_name(child.name) && tree_plain(child));
            lemma_with_rules_plain(child, path.drop_first(), rules);
            lemma_with_rules_keeps_name(child, path.drop_first(), rules);
            assert forall|i: int| 0 <= i < new.directories.len() implies is_plain_name(
                (#[trigger] new.directories[i]).name,
            ) && tree_plain(new.directories[i]) by {
                if i != at {
                    assert(new.directories[i] == root.directories[i]);
                }
            }
        }
    }
}

/// Replacing rules changes no name and no file.
pub proof fn lemma_with_rules_keeps_name(root: DirView, path: Seq<Seq<char>>, rules: Option<Graph>)
    ensures
        with_rules_at(root, path, rules).name == root.name,
        with_rules_at(root, path, rules).files == root.files,
        with_rules_at(root, path, rules).directories.len() == root.directories.len(),
{
}

/// The name of the rules file is plain.
pub proof fn lemma_rules_file_name_plain()
    ensures
        is_plain_name(RULES_FILE_NAME@),
{
    reveal_strlit(".deplint.rules.yml");
    let name = RULES_FILE_NAME@;
    assert(name.len() == 18);
    assert(name[1] == 'd');
    assert(name != dot()) by {
        assert(dot().len() == 1);
    }
    assert(name != dot_dot()) by {
        assert(dot_dot().len() == 2);
    }
    assert(!name.contains('/')) by {
        if name.contains('/') {
            let i = choose|i: int| 0 <= i < name.len() && name[i] == '/';
            assert(name[i] == '/');
            assert(i < 18);
            assert(i == 0 || i == 1 || i == 2 || i == 3 || i == 4 || i == 5 || i == 6 || i == 7
                || i == 8 || i == 9 || i == 10 || i == 11 || i == 12 || i == 13 || i == 14 || i
                == 15 || i == 16 || i == 17);
        }
    }
}

/// Whether every name of a file or directory in the tree below `dir` is
/// plain.
pub fn has_plain_names(dir: &Directory) -> (r: bool)
    ensures
        r == tree_plain(dir@),
    decreases height(dir@),
{
    let mut i: usize = 0;
    while i < dir.files.len()
        invariant
            i <= dir.files.len(),
            forall|k: int| 0 <= k < i ==> is_plain_name((#[trigger] dir@.files[k]).name),
        decreases dir.files.len() - i,
    {
        if !name_is_plain(dir.files[i].name.as_str()) {
            assert(!is_plain_name(dir@.files[i as int].name));
            return false;
        }
        i += 1;
    }
    let mut j: usize = 0;
    proof {
        lemma_dirs_view(dir.directories@);
    }
    while j < dir.directories.len()
        invariant
            j <= dir.directories.len(),
            dir@.directories.len() == dir.directories@.len(),
            forall|k: int|
                0 <= k < dir.directories@.len() ==> #[trigger] dir@.directories[k] == dir_view(
                    dir.directories@[k],
                ),
            forall|k: int|
                0 <= k < j ==> is_plain_name((#[trigger] dir@.directories[k]).name) && tree_plain(
                    dir@.directories[k],
                ),
        decreases dir.directories.len() - j,
    {
        proof {
            lemma_max_height(dir@.directories, j as int);
        }
        if !name_is_plain(dir.directories[j].name.as_str()) || !has_plain_names(
            &dir.directories[j],
        ) {
            assert(!(is_plain_name(dir@.directories[j as int].name) && tree_plain(
                dir@.directories[j as int],
            )));
            return false;
        }
        j += 1;
    }
    true
}

} // verus!
