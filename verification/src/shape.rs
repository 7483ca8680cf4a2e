//! The shape of a listing: how many lines it has, where the line of each
//! directory and of each file stands, and how far it is indented.

use crate::render::{
    file_rows, indentation, lemma_rows_of_first_prefix, line, lines, rows, rows_of_first,
    tree_rows, Row,
};
use crate::tree::{
    descendant, directory_count, directory_count_of_first, file_count, file_count_of_first,
    leads_down, DirectoryView, FileTreeView,
};
use vstd::prelude::*;

verus! {

/// The number of rows of the first `n` directories of `dirs`: one for each of
/// them, and one for each file and each directory below them.
pub open spec fn row_count_of_first(dirs: Seq<DirectoryView>, n: nat) -> nat {
    n + file_count_of_first(dirs, n) + directory_count_of_first(dirs, n)
}

/// The number of rows of a directory: its own, and one for each file and each
/// directory below it.
pub open spec fn row_count(dir: DirectoryView) -> nat {
    1 + file_count(dir) + directory_count(dir)
}

/// The row at which the directory that `path` leads to stands in the rows of
/// `dir`: behind the name and the files of each directory on the way, and
/// behind all rows of the subdirectories that come before the one taken.
pub open spec fn row_of(dir: DirectoryView, path: Seq<int>) -> nat
    decreases path.len(),
{
    if path.len() == 0 {
        0
    } else {
        1 + dir.files.len() + row_count_of_first(dir.directories, path[0] as nat) + row_of(
            dir.directories[path[0]],
            path.drop_first(),
        )
    }
}

/// What a row shows of a directory: its name, or one of its own files.
pub ghost enum Part {
    Name,
    File { index: int },
}

/// Whether `path` and `part` name something that `dir` holds: a directory in
/// it, or a file of such a directory.
pub open spec fn holds(dir: DirectoryView, path: Seq<int>, part: Part) -> bool {
    leads_down(dir, path) && match part {
        Part::Name => true,
        Part::File { index } => 0 <= index < descendant(dir, path).files.len(),
    }
}

/// The name that `part` of the directory that `path` leads to stands for.
pub open spec fn name_of_part(dir: DirectoryView, path: Seq<int>, part: Part) -> Seq<u8> {
    match part {
        Part::Name => descendant(dir, path).name,
        Part::File { index } => descendant(dir, path).files[index],
    }
}

/// The row of `part` of the directory that `path` leads to: the name on the
/// row of the directory, the files on the rows behind it.
pub open spec fn row_of_part(dir: DirectoryView, path: Seq<int>, part: Part) -> int {
    match part {
        Part::Name => row_of(dir, path) as int,
        Part::File { index } => row_of(dir, path) + 1 + index,
    }
}

/// A directory is printed on one row more than it holds files and
/// directories, whatever the depth: each of them exactly once, and itself.
pub proof fn lemma_row_count(dir: DirectoryView, depth: nat)
    ensures
        rows(dir, depth).len() == 1 + file_count(dir) + directory_count(dir),
        lines(rows(dir, depth)).len() == 1 + file_count(dir) + directory_count(dir),
    decreases dir, 0nat,
{
    lemma_row_count_of_first(dir.directories, depth + 1, dir.directories.len());
}

/// The rows of the first `n` directories of `dirs` are as many as
/// `row_count_of_first` says.
pub proof fn lemma_row_count_of_first(dirs: Seq<DirectoryView>, depth: nat, n: nat)
    requires
        n <= dirs.len(),
    ensures
        rows_of_first(dirs, depth, n).len() == row_count_of_first(dirs, n),
    decreases dirs, n,
{
    if n > 0 {
        lemma_row_count_of_first(dirs, depth, (n - 1) as nat);
        lemma_row_count(dirs[n - 1], depth);
    }
}

/// A whole tree is printed on as many rows as it has top-level directories,
/// and files and directories below them. With the one root that a scan
/// yields, that is one row more than there are files and directories below
/// the root.
pub proof fn lemma_tree_row_count(tree: FileTreeView)
    ensures
        lines(tree_rows(tree)).len() == tree.dirs.len() + file_count_of_first(
            tree.dirs,
            tree.dirs.len(),
        ) + directory_count_of_first(tree.dirs, tree.dirs.len()),
        tree.dirs.len() == 1 ==> lines(tree_rows(tree)).len() == 1 + file_count(tree.dirs[0])
            + directory_count(tree.dirs[0]),
{
    lemma_row_count_of_first(tree.dirs, 1, tree.dirs.len());
    if tree.dirs.len() == 1 {
        assert(file_count_of_first(tree.dirs, 1) == file_count(tree.dirs[0])) by {
            reveal_with_fuel(file_count_of_first, 2);
        }
        assert(directory_count_of_first(tree.dirs, 1) == directory_count(tree.dirs[0])) by {
            reveal_with_fuel(directory_count_of_first, 2);
        }
    }
}

/// The rows of a tree with one top-level directory are the rows of that
/// directory at depth 1.
pub proof fn lemma_tree_of_one_root(tree: FileTreeView)
    requires
        tree.dirs.len() == 1,
    ensures
        tree_rows(tree) == rows(tree.dirs[0], 1),
{
    assert(tree_rows(tree) =~= rows(tree.dirs[0], 1)) by {
        reveal_with_fuel(rows_of_first, 2);
    }
}

/// A directory without files and without subdirectories is printed on one
/// row, its own, and on nothing else.
pub proof fn lemma_empty_directory(dir: DirectoryView, depth: nat)
    requires
        dir.files.len() == 0,
        dir.directories.len() == 0,
    ensures
        rows(dir, depth) == seq![Row { depth, name: dir.name }],
        lines(rows(dir, depth)) == seq![line(Row { depth, name: dir.name })],
{
}

/// The rows of a directory inside `dir` stand together among the rows of
/// `dir`, from the row that `row_of` gives, and one level deeper for each
/// step that leads down to it.
pub proof fn lemma_descendant_rows(dir: DirectoryView, depth: nat, path: Seq<int>)
    requires
        leads_down(dir, path),
    ensures
        ({
            let at = row_of(dir, path) as int;
            let block = rows(descendant(dir, path), depth + path.len());
            &&& at + block.len() <= rows(dir, depth).len()
            &&& rows(dir, depth).subrange(at, at + block.len()) == block
        }),
    decreases path.len(),
{
    let all = rows(dir, depth);
    if path.len() == 0 {
        assert(all.subrange(0, all.len() as int) =~= all);
    } else {
        let taken = path[0];
        let child = dir.directories[taken];
        let rest = path.drop_first();
        let block = rows(descendant(child, rest), depth + 1 + rest.len());
        lemma_descendant_rows(child, depth + 1, rest);
        let inner = row_of(child, rest) as int;
        let below = rows_of_first(dir.directories, depth + 1, dir.directories.len());
        let before = rows_of_first(dir.directories, depth + 1, taken as nat);
        let upto = rows_of_first(dir.directories, depth + 1, (taken + 1) as nat);
        lemma_row_count_of_first(dir.directories, depth + 1, taken as nat);
        lemma_rows_of_first_prefix(
            dir.directories,
            depth + 1,
            (taken + 1) as nat,
            dir.directories.len(),
        );
        let at = row_of(dir, path) as int;
        let start = 1 + dir.files.len() + before.len();
        assert forall|k: int| 0 <= k < rows(child, depth + 1).len() implies #[trigger] all[start
            + k] == rows(child, depth + 1)[k] by {
            assert(below[before.len() + k] == upto[before.len() + k]);
        }
        assert forall|k: int| 0 <= k < block.len() implies #[trigger] all.subrange(
            at,
            at + block.len(),
        )[k] == block[k] by {
            assert(all[start + (inner + k)] == rows(child, depth + 1)[inner + k]);
        }
    }
}

/// Everything in a tree is printed where the tree says. The directory that
/// `path` leads to has its name on row `row_of(dir, path)`, at the depth of
/// `dir` plus one level for each step down. On the rows right behind it stand
/// its own files, all of them, in their order and at the same depth, and no
/// file of any other directory.
pub proof fn lemma_rows_follow_tree(dir: DirectoryView, depth: nat, path: Seq<int>, part: Part)
    requires
        holds(dir, path, part),
    ensures
        0 <= row_of_part(dir, path, part) < rows(dir, depth).len(),
        rows(dir, depth)[row_of_part(dir, path, part)] == (Row {
            depth: depth + path.len(),
            name: name_of_part(dir, path, part),
        }),
{
    let found = descendant(dir, path);
    let at = row_of(dir, path) as int;
    let level = depth + path.len();
    let block = rows(found, level);
    lemma_descendant_rows(dir, depth, path);
    match part {
        Part::Name => {
            assert(rows(dir, depth).subrange(at, at + block.len())[0] == block[0]);
        },
        Part::File { index } => {
            assert(block[1 + index] == file_rows(found.files, level)[index]);
        },
    }
}

/// The rows of the first directories of a list grow with their number, by the
/// rows of each directory that is added.
pub proof fn lemma_row_count_grows(dirs: Seq<DirectoryView>, fewer: nat, more: nat)
    requires
        fewer <= more <= dirs.len(),
    ensures
        row_count_of_first(dirs, fewer) <= row_count_of_first(dirs, more),
        fewer < dirs.len() ==> row_count_of_first(dirs, fewer + 1) == row_count_of_first(
            dirs,
            fewer,
        ) + row_count(dirs[fewer as int]),
    decreases more - fewer,
{
    if fewer < more {
        lemma_row_count_grows(dirs, fewer, (more - 1) as nat);
    }
}

/// Everything that a directory holds has its row among the rows of the
/// directory.
pub proof fn lemma_row_of_part_in_range(dir: DirectoryView, path: Seq<int>, part: Part)
    requires
        holds(dir, path, part),
    ensures
        0 <= row_of_part(dir, path, part) < row_count(dir),
        path.len() == 0 ==> row_of_part(dir, path, part) <= dir.files.len(),
        path.len() > 0 ==> 1 + dir.files.len() + row_count_of_first(
            dir.directories,
            path[0] as nat,
        ) <= row_of_part(dir, path, part) < 1 + dir.files.len() + row_count_of_first(
            dir.directories,
            (path[0] + 1) as nat,
        ),
    decreases path.len(),
{
    if path.len() > 0 {
        lemma_row_of_part_in_range(dir.directories[path[0]], path.drop_first(), part);
        lemma_row_count_grows(dir.directories, path[0] as nat, (path[0] + 1) as nat);
        lemma_row_count_grows(dir.directories, (path[0] + 1) as nat, dir.directories.len());
    }
}

/// The directory, among the first `n` of `dirs`, in whose rows row `row` of
/// their joint rows falls.
proof fn lemma_row_falls_in(dirs: Seq<DirectoryView>, n: nat, row: int) -> (taken: int)
    requires
        n <= dirs.len(),
        0 <= row < row_count_of_first(dirs, n),
    ensures
        0 <= taken < n,
        row_count_of_first(dirs, taken as nat) <= row < row_count_of_first(
            dirs,
            (taken + 1) as nat,
        ),
    decreases n,
{
    if row >= row_count_of_first(dirs, (n - 1) as nat) {
        n - 1
    } else {
        lemma_row_falls_in(dirs, (n - 1) as nat, row)
    }
}

/// No row is left over: every row of a directory is the row of something it
/// holds, the name of a directory in it or a file of one.
pub proof fn lemma_row_shows_part(dir: DirectoryView, row: int) -> (shown: (Seq<int>, Part))
    requires
        0 <= row < row_count(dir),
    ensures
        holds(dir, shown.0, shown.1),
        row_of_part(dir, shown.0, shown.1) == row,
    decreases dir,
{
    if row == 0 {
        (Seq::empty(), Part::Name)
    } else if row <= dir.files.len() {
        (Seq::empty(), Part::File { index: row - 1 })
    } else {
        let below = row - 1 - dir.files.len();
        let taken = lemma_row_falls_in(dir.directories, dir.directories.len(), below);
        lemma_row_count_grows(dir.directories, taken as nat, (taken + 1) as nat);
        let inner = lemma_row_shows_part(
            dir.directories[taken],
            below - row_count_of_first(dir.directories, taken as nat),
        );
        let path = seq![taken] + inner.0;
        assert(path.drop_first() =~= inner.0);
        (path, inner.1)
    }
}

/// No row is shared: two things that a directory holds and that stand on the
/// same row are one and the same.
pub proof fn lemma_row_shows_one_part(
    dir: DirectoryView,
    path: Seq<int>,
    part: Part,
    other_path: Seq<int>,
    other_part: Part,
)
    requires
        holds(dir, path, part),
        holds(dir, other_path, other_part),
        row_of_part(dir, path, part) == row_of_part(dir, other_path, other_part),
    ensures
        path == other_path,
        part == other_part,
    decreases path.len(),
{
    lemma_row_of_part_in_range(dir, path, part);
    lemma_row_of_part_in_range(dir, other_path, other_part);
    if path.len() == 0 || other_path.len() == 0 {
        assert(path =~= other_path);
    } else {
        let taken = path[0];
        let other_taken = other_path[0];
        if taken < other_taken {
            lemma_row_count_grows(dir.directories, (taken + 1) as nat, other_taken as nat);
        }
        if other_taken < taken {
            lemma_row_count_grows(dir.directories, (other_taken + 1) as nat, taken as nat);
        }
        lemma_row_shows_one_part(
            dir.directories[taken],
            path.drop_first(),
            part,
            other_path.drop_first(),
            other_part,
        );
        assert(path =~= seq![taken] + path.drop_first());
        assert(other_path =~= seq![taken] + other_path.drop_first());
    }
}

/// `depth` indentation units are three blanks each.
pub proof fn lemma_indentation(depth: nat)
    ensures
        indentation(depth).len() == 3 * depth,
        forall|i: int| 0 <= i < 3 * depth ==> #[trigger] indentation(depth)[i] == ' ',
    decreases depth,
{
    reveal_strlit("   ");
    if depth > 0 {
        lemma_indentation((depth - 1) as nat);
    }
}

/// A row printed at depth `d` starts with exactly `d` indentation units:
/// three blanks for each level, and then the connector, which starts with no
/// blank. So the indentation grows strictly with the depth.
pub proof fn lemma_line_indentation(row: Row)
    ensures
        line(row).len() >= 3 * row.depth + 3,
        line(row).subrange(0, 3 * row.depth as int) == indentation(row.depth),
        forall|i: int| 0 <= i < 3 * row.depth ==> #[trigger] line(row)[i] == ' ',
        line(row)[3 * row.depth as int] == '└',
{
    reveal_strlit("└──");
    lemma_indentation(row.depth);
}

} // verus!
