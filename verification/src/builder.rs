//! The tree builder: a depth-first scan written as a state machine. The
//! builder says which directory is to be listed next; its caller lists it and
//! hands the listing back. The builder never touches a file system itself.

use crate::listing::{
    directory_names, file_names, find_directories, find_files, first_unreadable, Listing,
    ListingView,
};
use crate::tree::{
    directory_views, lemma_directory_views, lemma_directory_views_push, name_views, Directory,
    DirectoryView, FileTree, FileTreeView,
};
use std::collections::VecDeque;
use vstd::prelude::*;
use vstd::string::*;
use vstd::utf8::*;

verus! {

/// The two passes over a directory: one for its subdirectories, one for its
/// files.
#[derive(Debug, Clone, Copy, PartialEq, Eq)]
pub enum ScanKind {
    Directories,
    Files,
}

/// What the builder waits for: the listing of the directory at `path`, the
/// names that lead to it from the root of the scan, for the pass `scan`.
#[derive(Debug, Clone, PartialEq, Eq)]
pub struct Request {
    pub path: Vec<Vec<u8>>,
    pub scan: ScanKind,
}

/// The mathematical value of a [`Request`].
pub ghost struct RequestView {
    pub path: Seq<Seq<u8>>,
    pub scan: ScanKind,
}

impl View for Request {
    type V = RequestView;

    open spec fn view(&self) -> RequestView {
        RequestView { path: name_views(self.path@), scan: self.scan }
    }
}

/// Why a scan was abandoned: where, relative to the root of the scan, and the
/// cause that came with the listing.
#[derive(Debug, Clone, PartialEq, Eq)]
pub enum ScanError<C> {
    /// The directory at `path` could not be listed.
    ListingFailure { path: Vec<Vec<u8>>, cause: C },
    /// An entry of the directory at `path` could not be read while its
    /// subdirectories were looked for.
    EntryIterationFailure { path: Vec<Vec<u8>>, cause: C },
}

/// The mathematical value of a [`ScanError`].
pub ghost enum ScanErrorView<C> {
    ListingFailure { path: Seq<Seq<u8>>, cause: C },
    EntryIterationFailure { path: Seq<Seq<u8>>, cause: C },
}

impl<C> View for ScanError<C> {
    type V = ScanErrorView<C>;

    open spec fn view(&self) -> ScanErrorView<C> {
        match *self {
            ScanError::ListingFailure { path, cause } => ScanErrorView::ListingFailure {
                path: name_views(path@),
                cause,
            },
            ScanError::EntryIterationFailure {
                path,
                cause,
            } => ScanErrorView::EntryIterationFailure { path: name_views(path@), cause },
        }
    }
}

/// A directory under construction: its name, the subdirectories that are
/// still to be scanned, and those that are complete.
#[derive(Debug)]
struct Frame {
    name: Vec<u8>,
    pending: VecDeque<Vec<u8>>,
    done: Vec<Directory>,
}

/// The mathematical value of a directory under construction.
pub ghost struct FrameView {
    pub name: Seq<u8>,
    pub pending: Seq<Seq<u8>>,
    pub done: Seq<DirectoryView>,
}

impl View for Frame {
    type V = FrameView;

    closed spec fn view(&self) -> FrameView {
        FrameView {
            name: self.name@,
            pending: name_views(self.pending@),
            done: directory_views(self.done@, self.done@.len()),
        }
    }
}

/// The state of a scan between two listings. The stack holds the directory
/// that is being listed on top and its ancestors below it, the root of the
/// scan at the bottom.
#[derive(Debug)]
pub struct TreeBuilder {
    stack: Vec<Frame>,
    awaiting: ScanKind,
}

/// The mathematical value of a [`TreeBuilder`].
pub ghost struct BuilderView {
    pub stack: Seq<FrameView>,
    pub awaiting: ScanKind,
}

spec fn frame_views(stack: Seq<Frame>) -> Seq<FrameView> {
    stack.map_values(|frame: Frame| frame@)
}

impl View for TreeBuilder {
    type V = BuilderView;

    closed spec fn view(&self) -> BuilderView {
        BuilderView { stack: frame_views(self.stack@), awaiting: self.awaiting }
    }
}

/// How one listing moves a scan on.
#[derive(Debug)]
pub enum Step<C> {
    /// The scan goes on: the builder has another request.
    Continue(TreeBuilder),
    /// The scan is complete.
    Done(FileTree),
    /// The scan is abandoned; nothing of the tree is kept.
    Failed(ScanError<C>),
}

/// The mathematical value of a [`Step`].
pub ghost enum StepView<C> {
    Continue(BuilderView),
    Done(FileTreeView),
    Failed(ScanErrorView<C>),
}

impl<C> View for Step<C> {
    type V = StepView<C>;

    open spec fn view(&self) -> StepView<C> {
        match *self {
            Step::Continue(builder) => StepView::Continue(builder@),
            Step::Done(tree) => StepView::Done(tree@),
            Step::Failed(error) => StepView::Failed(error@),
        }
    }
}

/// A directory of which nothing is known yet but its name.
pub open spec fn fresh(name: Seq<u8>) -> FrameView {
    FrameView { name, pending: Seq::empty(), done: Seq::empty() }
}

/// The state in which a scan starts: the root alone, its subdirectories asked
/// for.
pub open spec fn start(root: Seq<u8>) -> BuilderView {
    BuilderView { stack: seq![fresh(root)], awaiting: ScanKind::Directories }
}

/// The names that lead from the root of the scan to the directory on top of
/// the stack. The root itself is not part of them.
pub open spec fn path_of(stack: Seq<FrameView>) -> Seq<Seq<u8>> {
    stack.skip(1).map_values(|frame: FrameView| frame.name)
}

/// The request that a state stands for.
pub open spec fn request_of(state: BuilderView) -> RequestView {
    RequestView { path: path_of(state.stack), scan: state.awaiting }
}

/// Where the scan turns once the subdirectories of the top directory are
/// known: down into the next one that is pending, or, when none is left, to
/// the files of the top directory itself.
pub open spec fn advance(stack: Seq<FrameView>) -> BuilderView {
    let top = stack.last();
    if top.pending.len() > 0 {
        BuilderView {
            stack: stack.drop_last().push(
                FrameView { pending: top.pending.drop_first(), ..top },
            ).push(fresh(top.pending[0])),
            awaiting: ScanKind::Directories,
        }
    } else {
        BuilderView { stack, awaiting: ScanKind::Files }
    }
}

/// Where a finished directory goes: into its parent, or, for the root, out as
/// the tree.
pub open spec fn complete<C>(below: Seq<FrameView>, dir: DirectoryView) -> StepView<C> {
    if below.len() == 0 {
        StepView::Done(FileTreeView { dirs: seq![dir] })
    } else {
        let parent = below.last();
        StepView::Continue(
            advance(below.drop_last().push(FrameView { done: parent.done.push(dir), ..parent })),
        )
    }
}

/// The transition: what a state becomes when `listing` answers its request.
///
/// A listing that failed abandons the scan. In the pass for subdirectories an
/// unreadable entry abandons it too; otherwise the directories found become
/// the pending children of the top directory. In the pass for files the top
/// directory is complete: its files are those of this listing, its
/// subdirectories those that were built for it.
pub open spec fn step_of<C>(state: BuilderView, listing: ListingView<C>) -> StepView<C> {
    let top = state.stack.last();
    let path = path_of(state.stack);
    match listing {
        ListingView::Failed { cause } => StepView::Failed(
            ScanErrorView::ListingFailure { path, cause },
        ),
        ListingView::Entries { entries } => match state.awaiting {
            ScanKind::Directories => match first_unreadable(entries) {
                Some(cause) => StepView::Failed(
                    ScanErrorView::EntryIterationFailure { path, cause },
                ),
                None => StepView::Continue(
                    advance(
                        state.stack.drop_last().push(
                            FrameView { pending: directory_names(entries), ..top },
                        ),
                    ),
                ),
            },
            ScanKind::Files => complete(
                state.stack.drop_last(),
                DirectoryView { name: top.name, directories: top.done, files: file_names(entries) },
            ),
        },
    }
}

/// The name given to a root whose path has no last component to take a name
/// from: the UTF-8 bytes of a fixed text.
pub open spec fn root_placeholder() -> Seq<u8> {
    encode_utf8("Error when reading root"@)
}

/// The placeholder is text: rendering it gives back the words it was made of.
pub proof fn lemma_root_placeholder_is_text()
    ensures
        valid_utf8(root_placeholder()),
        decode_utf8(root_placeholder()) == "Error when reading root"@,
{
    encode_utf8_valid_utf8("Error when reading root"@);
    encode_utf8_decode_utf8("Error when reading root"@);
}

/// The name of the root of a scan: the last component of its path, or the
/// placeholder where the path has none.
pub fn root_name(last_component: Option<Vec<u8>>) -> (name: Vec<u8>)
    ensures
        name@ == match last_component {
            Some(given) => given@,
            None => root_placeholder(),
        },
{
    match last_component {
        Some(given) => given,
        None => "Error when reading root".as_bytes_vec(),
    }
}

/// A frame without pending or finished children is a fresh one.
proof fn lemma_fresh(frame: Frame)
    requires
        frame.pending@.len() == 0,
        frame.done@.len() == 0,
    ensures
        frame@ == fresh(frame.name@),
{
    assert(frame@.pending =~= Seq::<Seq<u8>>::empty());
}

/// The names in a queue, first in first out.
fn queue_of(names: Vec<Vec<u8>>) -> (queue: VecDeque<Vec<u8>>)
    ensures
        queue@ == names@,
{
    let mut queue: VecDeque<Vec<u8>> = VecDeque::new();
    for name in it: names
        invariant
            queue@ == names@.take(it.index() as int),
    {
        queue.push_back(name);
    }
    queue
}

/// The names of all frames but the bottom one, from the bottom up.
fn path_to_top(stack: &Vec<Frame>) -> (path: Vec<Vec<u8>>)
    requires
        stack.len() > 0,
    ensures
        name_views(path@) == path_of(frame_views(stack@)),
{
    let mut path: Vec<Vec<u8>> = Vec::new();
    let mut i: usize = 1;
    while i < stack.len()
        invariant
            1 <= i <= stack.len(),
            name_views(path@) == frame_views(stack@).subrange(1, i as int).map_values(
                |frame: FrameView| frame.name,
            ),
        decreases stack.len() - i,
    {
        let ghost so_far = name_views(path@);
        let name = stack[i].name.clone();
        path.push(name);
        assert(name_views(path@) =~= so_far.push(name@));
        i += 1;
    }
    path
}

/// Turns to the next pending child of the top frame, or to its files.
fn turn(stack: Vec<Frame>) -> (builder: TreeBuilder)
    requires
        stack.len() > 0,
    ensures
        builder@ == advance(frame_views(stack@)),
{
    let mut stack = stack;
    let ghost before = frame_views(stack@);
    let mut top = stack.pop().unwrap();
    let ghost was = top@;
    match top.pending.pop_front() {
        Some(name) => {
            let child = Frame { name, pending: VecDeque::new(), done: Vec::new() };
            proof {
                lemma_fresh(child);
                assert(top@.pending =~= was.pending.drop_first());
            }
            stack.push(top);
            stack.push(child);
            let builder = TreeBuilder { stack, awaiting: ScanKind::Directories };
            assert(builder@.stack =~= advance(before).stack);
            builder
        },
        None => {
            stack.push(top);
            let builder = TreeBuilder { stack, awaiting: ScanKind::Files };
            assert(builder@.stack =~= before);
            builder
        },
    }
}

impl TreeBuilder {
    #[verifier::type_invariant]
    spec fn has_top(self) -> bool {
        self.stack@.len() > 0
    }

    /// The builder at the start of a scan of the directory called `root`.
    pub fn begin(root: Vec<u8>) -> (builder: TreeBuilder)
        ensures
            builder@ == start(root@),
    {
        let mut stack: Vec<Frame> = Vec::new();
        let bottom = Frame { name: root, pending: VecDeque::new(), done: Vec::new() };
        proof {
            lemma_fresh(bottom);
        }
        stack.push(bottom);
        let builder = TreeBuilder { stack, awaiting: ScanKind::Directories };
        assert(builder@.stack =~= start(root@).stack);
        builder
    }

    /// The listing that the builder waits for.
    pub fn request(&self) -> (request: Request)
        ensures
            request@ == request_of(self@),
    {
        proof {
            use_type_invariant(self);
        }
        Request { path: path_to_top(&self.stack), scan: self.awaiting }
    }

    /// Takes the listing that answers `self.request()` and moves the scan on.
    pub fn step<C>(self, listing: Listing<C>) -> (next: Step<C>)
        ensures
            next@ == step_of(self@, listing@),
    {
        proof {
            use_type_invariant(&self);
        }
        let ghost before = self@.stack;
        let mut stack = self.stack;
        match listing {
            Listing::Failed { cause } => Step::Failed(
                ScanError::ListingFailure { path: path_to_top(&stack), cause },
            ),
            Listing::Entries { entries } => match self.awaiting {
                ScanKind::Directories => match find_directories(entries) {
                    Err(cause) => Step::Failed(
                        ScanError::EntryIterationFailure { path: path_to_top(&stack), cause },
                    ),
                    Ok(names) => {
                        let mut top = stack.pop().unwrap();
                        top.pending = queue_of(names);
                        stack.push(top);
                        let ghost found = directory_names(listing@->entries);
                        assert(frame_views(stack@) =~= before.drop_last().push(
                            FrameView { pending: found, ..before.last() },
                        ));
                        Step::Continue(turn(stack))
                    },
                },
                ScanKind::Files => {
                    let files = find_files(entries);
                    let top = stack.pop().unwrap();
                    let dir = Directory { name: top.name, directories: top.done, files };
                    match stack.pop() {
                        None => {
                            let mut dirs: Vec<Directory> = Vec::new();
                            dirs.push(dir);
                            let tree = FileTree { dirs };
                            proof {
                                lemma_directory_views(tree.dirs@, 1);
                            }
                            Step::Done(tree)
                        },
                        Some(parent) => {
                            let mut parent = parent;
                            let ghost was = parent@;
                            proof {
                                lemma_directory_views_push(parent.done@, dir);
                            }
                            parent.done.push(dir);
                            stack.push(parent);
                            assert(frame_views(stack@) =~= before.drop_last().drop_last().push(
                                FrameView { done: was.done.push(dir@), ..was },
                            ));
                            Step::Continue(turn(stack))
                        },
                    }
                },
            },
        }
    }
}

} // verus!
