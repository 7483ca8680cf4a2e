//! The in-memory hierarchy: directories that own their file names and their
//! subdirectories, and the mathematical view of each.

use vstd::prelude::*;

verus! {

/// One directory: its base name, its subdirectories and the base names of the
/// files directly inside it, each list in the order of the listing it came from.
/// Names are raw bytes, as the platform hands them out; nothing here assumes
/// that they are text.
#[derive(Debug, PartialEq, Eq)]
pub struct Directory {
    pub name: Vec<u8>,
    pub directories: Vec<Directory>,
    pub files: Vec<Vec<u8>>,
}

/// The mathematical value of a [`Directory`].
pub ghost struct DirectoryView {
    pub name: Seq<u8>,
    pub directories: Seq<DirectoryView>,
    pub files: Seq<Seq<u8>>,
}

/// The container that a scan returns: its top-level directories, in practice
/// the one directory that the scan started from.
#[derive(Debug, PartialEq, Eq)]
pub struct FileTree {
    pub dirs: Vec<Directory>,
}

/// The mathematical value of a [`FileTree`].
pub ghost struct FileTreeView {
    pub dirs: Seq<DirectoryView>,
}

/// The views of the first `n` directories of `dirs`.
pub open spec fn directory_views(dirs: Seq<Directory>, n: nat) -> Seq<DirectoryView>
    decreases dirs, n,
{
    if n == 0 || n > dirs.len() {
        Seq::empty()
    } else {
        directory_views(dirs, (n - 1) as nat).push(dirs[n - 1]@)
    }
}

/// The byte sequences that a list of names holds.
pub open spec fn name_views(names: Seq<Vec<u8>>) -> Seq<Seq<u8>> {
    names.map_values(|name: Vec<u8>| name@)
}

impl View for Directory {
    type V = DirectoryView;

    open spec fn view(&self) -> DirectoryView
        decreases self, 0nat,
    {
        DirectoryView {
            name: self.name@,
            directories: directory_views(self.directories@, self.directories@.len()),
            files: name_views(self.files@),
        }
    }
}

impl View for FileTree {
    type V = FileTreeView;

    open spec fn view(&self) -> FileTreeView {
        FileTreeView { dirs: directory_views(self.dirs@, self.dirs@.len()) }
    }
}

/// The number of files in `dir` and in all directories below it.
pub open spec fn file_count(dir: DirectoryView) -> nat
    decreases dir, 0nat,
{
    dir.files.len() + file_count_of_first(dir.directories, dir.directories.len())
}

/// The number of files in and below the first `n` directories of `dirs`.
pub open spec fn file_count_of_first(dirs: Seq<DirectoryView>, n: nat) -> nat
    decreases dirs, n,
{
    if n == 0 || n > dirs.len() {
        0
    } else {
        file_count_of_first(dirs, (n - 1) as nat) + file_count(dirs[n - 1])
    }
}

/// The number of directories below `dir`. `dir` itself is not counted.
pub open spec fn directory_count(dir: DirectoryView) -> nat
    decreases dir, 0nat,
{
    dir.directories.len() + directory_count_of_first(dir.directories, dir.directories.len())
}

/// The number of directories below the first `n` directories of `dirs`.
pub open spec fn directory_count_of_first(dirs: Seq<DirectoryView>, n: nat) -> nat
    decreases dirs, n,
{
    if n == 0 || n > dirs.len() {
        0
    } else {
        directory_count_of_first(dirs, (n - 1) as nat) + directory_count(dirs[n - 1])
    }
}

/// Whether `path` leads from `dir` down to a directory in it: each step is
/// the index of a subdirectory. The empty path leads to `dir` itself.
pub open spec fn leads_down(dir: DirectoryView, path: Seq<int>) -> bool
    decreases path.len(),
{
    path.len() == 0 || (0 <= path[0] < dir.directories.len() && leads_down(
        dir.directories[path[0]],
        path.drop_first(),
    ))
}

/// The directory that `path` leads to from `dir`.
pub open spec fn descendant(dir: DirectoryView, path: Seq<int>) -> DirectoryView
    decreases path.len(),
{
    if path.len() == 0 {
        dir
    } else {
        descendant(dir.directories[path[0]], path.drop_first())
    }
}

/// A directory put in front of a list adds what lies below it to what lies
/// below the list.
pub proof fn lemma_directory_count_in_front(dir: DirectoryView, rest: Seq<DirectoryView>, n: nat)
    requires
        n <= rest.len(),
    ensures
        directory_count_of_first(seq![dir] + rest, n + 1) == directory_count(dir)
            + directory_count_of_first(rest, n),
    decreases n,
{
    let all = seq![dir] + rest;
    if n == 0 {
        assert(directory_count_of_first(all, 1) == directory_count(all[0])) by {
            reveal_with_fuel(directory_count_of_first, 2);
        }
    } else {
        lemma_directory_count_in_front(dir, rest, (n - 1) as nat);
    }
}

/// `directory_views` maps the directories one to one, in order.
pub proof fn lemma_directory_views(dirs: Seq<Directory>, n: nat)
    requires
        n <= dirs.len(),
    ensures
        directory_views(dirs, n).len() == n,
        forall|i: int| 0 <= i < n ==> (#[trigger] directory_views(dirs, n)[i]) == dirs[i]@,
        n > 0 ==> directory_views(dirs, n) == directory_views(dirs, (n - 1) as nat).push(
            dirs[n - 1]@,
        ),
    decreases n,
{
    if n > 0 {
        let shorter = directory_views(dirs, (n - 1) as nat);
        lemma_directory_views(dirs, (n - 1) as nat);
        assert(directory_views(dirs, n) == shorter.push(dirs[n - 1]@));
    }
}

/// One more directory at the end is one more view at the end.
pub proof fn lemma_directory_views_push(dirs: Seq<Directory>, dir: Directory)
    ensures
        directory_views(dirs.push(dir), dirs.len() + 1) == directory_views(dirs, dirs.len()).push(
            dir@,
        ),
{
    let longer = dirs.push(dir);
    lemma_directory_views(dirs, dirs.len());
    lemma_directory_views(longer, dirs.len());
    lemma_directory_views(longer, dirs.len() + 1);
}

} // verus!
