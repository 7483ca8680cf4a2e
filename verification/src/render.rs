//! The renderer: a tree becomes lines of text, one per directory and per
//! file, in pre-order and indented by depth.

use crate::tree::{lemma_directory_views, Directory, DirectoryView, FileTree, FileTreeView};
use vstd::prelude::*;
use vstd::string::*;
use vstd::utf8::*;

verus! {

/// What one level of depth adds in front of a line.
pub open spec fn indent_unit() -> Seq<char> {
    "   "@
}

/// The glyph between the indentation and the name. Directories and files
/// share it.
pub open spec fn connector() -> Seq<char> {
    "└──"@
}

/// `depth` indentation units in a row.
pub open spec fn indentation(depth: nat) -> Seq<char>
    decreases depth,
{
    if depth == 0 {
        Seq::empty()
    } else {
        indentation((depth - 1) as nat) + indent_unit()
    }
}

/// One line of the listing before it is formatted: a name and the depth it is
/// printed at.
pub ghost struct Row {
    pub depth: nat,
    pub name: Seq<u8>,
}

/// The rows of a directory printed at `depth`, in pre-order: its own name, its
/// files at the same depth, then each subdirectory in turn one level deeper.
pub open spec fn rows(dir: DirectoryView, depth: nat) -> Seq<Row>
    decreases dir, 0nat,
{
    seq![Row { depth, name: dir.name }] + file_rows(dir.files, depth) + rows_of_first(
        dir.directories,
        depth + 1,
        dir.directories.len(),
    )
}

/// The rows of a directory's own files.
pub open spec fn file_rows(files: Seq<Seq<u8>>, depth: nat) -> Seq<Row> {
    files.map_values(|name: Seq<u8>| Row { depth, name })
}

/// The rows of the first `n` directories of `dirs`, each printed at `depth`.
pub open spec fn rows_of_first(dirs: Seq<DirectoryView>, depth: nat, n: nat) -> Seq<Row>
    decreases dirs, n,
{
    if n == 0 || n > dirs.len() {
        Seq::empty()
    } else {
        rows_of_first(dirs, depth, (n - 1) as nat) + rows(dirs[n - 1], depth)
    }
}

/// The rows of a whole tree: each top-level directory at depth 1, in order.
pub open spec fn tree_rows(tree: FileTreeView) -> Seq<Row> {
    rows_of_first(tree.dirs, 1, tree.dirs.len())
}

/// The text of a row: indentation, connector, and the name decoded as UTF-8.
pub open spec fn line(row: Row) -> Seq<char> {
    indentation(row.depth) + connector() + decode_utf8(row.name)
}

/// The text of each row.
pub open spec fn lines(rows: Seq<Row>) -> Seq<Seq<char>> {
    rows.map_values(|row: Row| line(row))
}

/// The name of the first row that is not valid UTF-8, if there is one.
pub open spec fn first_undecodable(rows: Seq<Row>) -> Option<Seq<u8>>
    decreases rows.len(),
{
    if rows.len() == 0 {
        None
    } else if !valid_utf8(rows[0].name) {
        Some(rows[0].name)
    } else {
        first_undecodable(rows.drop_first())
    }
}

/// Why a tree could not be rendered.
#[derive(Debug, Clone, PartialEq, Eq)]
pub enum RenderError {
    /// A name is not valid UTF-8 and so cannot be shown as text.
    NameDecodingFailure { name: Vec<u8> },
}

impl RenderError {
    /// The bytes of the name that could not be decoded.
    pub open spec fn name(self) -> Seq<u8> {
        match self {
            RenderError::NameDecodingFailure { name } => name@,
        }
    }
}

/// Calls `std::str::from_utf8`. The contract claims what its documentation
/// says: the call succeeds exactly on well-formed UTF-8, and the string slice
/// it then returns consists of the very bytes that were passed in.
#[verifier::external_body]
fn utf8_text(bytes: &[u8]) -> (text: Option<&str>)
    ensures
        text is Some <==> valid_utf8(bytes@),
        text matches Some(s) ==> s.spec_bytes() == bytes@,
{
    match std::str::from_utf8(bytes) {
        Ok(s) => Some(s),
        Err(_) => None,
    }
}

/// One line: `indent`, the connector and `name` as text, or `None` where
/// `name` is not valid UTF-8.
fn format_line(indent: &str, name: &Vec<u8>) -> (formatted: Option<String>)
    ensures
        formatted is Some <==> valid_utf8(name@),
        formatted matches Some(text) ==> text@ == indent@ + connector() + decode_utf8(name@),
{
    match utf8_text(name.as_slice()) {
        None => None,
        Some(text) => {
            proof {
                encode_utf8_decode_utf8(text@);
            }
            let mut formatted = String::from_str(indent);
            formatted.append("└──");
            formatted.append(text);
            Some(formatted)
        },
    }
}

/// The first undecodable name of two runs of rows is that of the first run,
/// and where that has none, that of the second.
pub proof fn lemma_first_undecodable_concat(a: Seq<Row>, b: Seq<Row>)
    ensures
        first_undecodable(a + b) == if first_undecodable(a) is Some {
            first_undecodable(a)
        } else {
            first_undecodable(b)
        },
    decreases a.len(),
{
    if a.len() == 0 {
        assert(a + b =~= b);
    } else {
        assert((a + b).drop_first() =~= a.drop_first() + b);
        lemma_first_undecodable_concat(a.drop_first(), b);
    }
}

/// A single row is undecodable exactly if its name is not valid UTF-8.
pub proof fn lemma_first_undecodable_single(row: Row)
    ensures
        first_undecodable(seq![row]) == if valid_utf8(row.name) {
            None
        } else {
            Some(row.name)
        },
{
    reveal_with_fuel(first_undecodable, 2);
}

/// What `first_undecodable` finds is the first: where it finds nothing, every
/// name is valid UTF-8; where it finds a name, that name is not, and every
/// name before it is.
pub proof fn lemma_first_undecodable_is_first(rows: Seq<Row>) -> (at: int)
    ensures
        first_undecodable(rows) is None ==> at == rows.len(),
        first_undecodable(rows) matches Some(name) ==> 0 <= at < rows.len() && rows[at].name
            == name && !valid_utf8(name),
        forall|i: int| 0 <= i < at ==> valid_utf8(#[trigger] rows[i].name),
    decreases rows.len(),
{
    if rows.len() == 0 || !valid_utf8(rows[0].name) {
        0
    } else {
        let rest = rows.drop_first();
        let inner = lemma_first_undecodable_is_first(rest);
        assert forall|i: int| 0 <= i < inner + 1 implies valid_utf8(#[trigger] rows[i].name) by {
            if i > 0 {
                assert(rows[i] == rest[i - 1]);
            }
        }
        inner + 1
    }
}

/// The rows of the first `k` directories open the rows of the first `n`.
pub proof fn lemma_rows_of_first_prefix(dirs: Seq<DirectoryView>, depth: nat, k: nat, n: nat)
    requires
        k <= n <= dirs.len(),
    ensures
        rows_of_first(dirs, depth, k).is_prefix_of(rows_of_first(dirs, depth, n)),
    decreases n - k,
{
    if k < n {
        lemma_rows_of_first_prefix(dirs, depth, k, (n - 1) as nat);
    }
}

/// Appends the lines of `dir`, printed at `depth`, to `out`; stops at the
/// first name that cannot be decoded.
fn render_into(
    dir: &Directory,
    indent: &str,
    Ghost(depth): Ghost<nat>,
    out: &mut Vec<String>,
) -> (outcome: Result<(), RenderError>)
    requires
        indent@ == indentation(depth),
    ensures
        match outcome {
            Ok(()) => first_undecodable(rows(dir@, depth)) is None && final(out).deep_view() == old(
                out,
            ).deep_view() + lines(rows(dir@, depth)),
            Err(e) => first_undecodable(rows(dir@, depth)) == Some(e.name()),
        },
    decreases dir,
{
    let ghost before = out.deep_view();
    let ghost head = seq![Row { depth, name: dir@.name }];
    let ghost subdirs = dir@.directories;
    let ghost below = rows_of_first(subdirs, depth + 1, subdirs.len());
    proof {
        lemma_directory_views(dir.directories@, dir.directories@.len());
    }
    match format_line(indent, &dir.name) {
        None => {
            proof {
                lemma_first_undecodable_concat(head, file_rows(dir@.files, depth) + below);
            }
            return Err(RenderError::NameDecodingFailure { name: dir.name.clone() });
        },
        Some(text) => {
            out.push(text);
        },
    }
    let ghost mut done = head;
    proof {
        lemma_first_undecodable_single(head[0]);
    }
    let mut i: usize = 0;
    while i < dir.files.len()
        invariant
            i <= dir.files.len(),
            indent@ == indentation(depth),
            head == seq![Row { depth, name: dir@.name }],
            below == rows_of_first(dir@.directories, depth + 1, dir@.directories.len()),
            done == head + file_rows(dir@.files.take(i as int), depth),
            first_undecodable(done) is None,
            out.deep_view() == before + lines(done),
        decreases dir.files.len() - i,
    {
        let ghost row = Row { depth, name: dir.files@[i as int]@ };
        let ghost rest = file_rows(dir@.files.skip(i + 1), depth) + below;
        proof {
            assert(rows(dir@, depth) =~= done + (seq![row] + rest));
            lemma_first_undecodable_concat(done, seq![row] + rest);
            lemma_first_undecodable_concat(seq![row], rest);
            lemma_first_undecodable_single(row);
        }
        match format_line(indent, &dir.files[i]) {
            None => {
                return Err(RenderError::NameDecodingFailure { name: dir.files[i].clone() });
            },
            Some(text) => {
                out.push(text);
            },
        }
        proof {
            lemma_first_undecodable_concat(done, seq![row]);
            assert(done.push(row) =~= done + seq![row]);
            assert(out.deep_view() =~= (before + lines(done)).push(line(row)));
            done = done.push(row);
        }
        i += 1;
    }
    let mut child_indent = String::from_str(indent);
    child_indent.append("   ");
    let mut j: usize = 0;
    while j < dir.directories.len()
        invariant
            j <= dir.directories.len(),
            child_indent@ == indentation(depth + 1),
            subdirs == dir@.directories,
            subdirs.len() == dir.directories.len(),
            forall|k: int| 0 <= k < subdirs.len() ==> (#[trigger] subdirs[k]) == dir.directories@[k]@,
            head == seq![Row { depth, name: dir@.name }],
            done == head + file_rows(dir@.files, depth) + rows_of_first(
                subdirs,
                depth + 1,
                j as nat,
            ),
            first_undecodable(done) is None,
            out.deep_view() == before + lines(done),
        decreases dir.directories.len() - j,
    {
        let ghost child = rows(subdirs[j as int], depth + 1);
        let ghost upto = rows_of_first(subdirs, depth + 1, (j + 1) as nat);
        proof {
            lemma_rows_of_first_prefix(subdirs, depth + 1, (j + 1) as nat, subdirs.len());
            let whole = rows_of_first(subdirs, depth + 1, subdirs.len());
            let rest = whole.skip(upto.len() as int);
            assert(whole =~= upto + rest);
            assert(rows(dir@, depth) =~= done + (child + rest));
            lemma_first_undecodable_concat(done, child + rest);
            lemma_first_undecodable_concat(child, rest);
            lemma_first_undecodable_concat(done, child);
        }
        match render_into(&dir.directories[j], child_indent.as_str(), Ghost(depth + 1), out) {
            Err(e) => {
                return Err(e);
            },
            Ok(()) => {},
        }
        proof {
            assert(lines(done + child) =~= lines(done) + lines(child));
            done = done + child;
        }
        j += 1;
    }
    Ok(())
}

impl Directory {
    /// The lines of this directory and of everything below it, with this
    /// directory printed at `depth`. Fails on the first name, in printing
    /// order, that is not valid UTF-8, and returns that name.
    pub fn display_directory(&self, depth: usize) -> (outcome: Result<Vec<String>, RenderError>)
        ensures
            match outcome {
                Ok(text) => first_undecodable(rows(self@, depth as nat)) is None
                    && text.deep_view() == lines(rows(self@, depth as nat)),
                Err(e) => first_undecodable(rows(self@, depth as nat)) == Some(e.name()),
            },
    {
        let mut indent = String::new();
        let mut level: usize = 0;
        while level < depth
            invariant
                level <= depth,
                indent@ == indentation(level as nat),
            decreases depth - level,
        {
            indent.append("   ");
            level += 1;
        }
        let mut text: Vec<String> = Vec::new();
        match render_into(self, indent.as_str(), Ghost(depth as nat), &mut text) {
            Ok(()) => {
                Ok(text)
            },
            Err(e) => Err(e),
        }
    }
}

impl FileTree {
    /// The lines of the whole tree: every top-level directory printed at depth
    /// 1, one after the other. Fails on the first name, in printing order, that
    /// is not valid UTF-8, and returns that name.
    pub fn display_tree(&self) -> (outcome: Result<Vec<String>, RenderError>)
        ensures
            match outcome {
                Ok(text) => first_undecodable(tree_rows(self@)) is None && text.deep_view()
                    == lines(tree_rows(self@)),
                Err(e) => first_undecodable(tree_rows(self@)) == Some(e.name()),
            },
    {
        let ghost tops = self@.dirs;
        let ghost whole = tree_rows(self@);
        proof {
            lemma_directory_views(self.dirs@, self.dirs@.len());
        }
        let mut indent = String::new();
        indent.append("   ");
        assert(indent@ =~= indentation(1)) by {
            reveal_with_fuel(indentation, 2);
        }
        let mut text: Vec<String> = Vec::new();
        let mut j: usize = 0;
        while j < self.dirs.len()
            invariant
                j <= self.dirs.len(),
                indent@ == indentation(1),
                tops == self@.dirs,
                tops.len() == self.dirs.len(),
                forall|k: int| 0 <= k < tops.len() ==> (#[trigger] tops[k]) == self.dirs@[k]@,
                whole == rows_of_first(tops, 1, tops.len()),
                first_undecodable(rows_of_first(tops, 1, j as nat)) is None,
                text.deep_view() == lines(rows_of_first(tops, 1, j as nat)),
            decreases self.dirs.len() - j,
        {
            let ghost done = rows_of_first(tops, 1, j as nat);
            let ghost top = rows(tops[j as int], 1);
            proof {
                let upto = rows_of_first(tops, 1, (j + 1) as nat);
                lemma_rows_of_first_prefix(tops, 1, (j + 1) as nat, tops.len());
                let rest = whole.skip(upto.len() as int);
                assert(whole =~= upto + rest);
                assert(whole =~= done + (top + rest));
                lemma_first_undecodable_concat(done, top + rest);
                lemma_first_undecodable_concat(top, rest);
                lemma_first_undecodable_concat(done, top);
            }
            match render_into(&self.dirs[j], indent.as_str(), Ghost(1), &mut text) {
                Err(e) => {
                    return Err(e);
                },
                Ok(()) => {},
            }
            j += 1;
        }
        Ok(text)
    }
}

} // verus!
