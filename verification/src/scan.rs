//! What a scan computes, stated by recursion on the file system, and the proof
//! that the builder, fed by that file system, computes it.

use crate::builder::{
    advance, complete, fresh, path_of, request_of, start, step_of, BuilderView, FrameView,
    RequestView, ScanErrorView, ScanKind, StepView,
};
use crate::listing::{directory_names, file_names, first_unreadable, ListingView};
use crate::tree::{
    descendant, directory_count, directory_count_of_first, leads_down,
    lemma_directory_count_in_front, DirectoryView, FileTreeView,
};
use vstd::prelude::*;

verus! {

/// What the recursive description of a scan yields for a directory or for a
/// list of directories.
pub ghost enum Scan<C, T> {
    /// The directories nest deeper than the bound that was given.
    TooDeep,
    /// The scan is abandoned.
    Failed(ScanErrorView<C>),
    /// The result.
    Built(T),
}

/// The scan of the directory called `name` that lies at `path`, in a file
/// system that answers each request with `fs` of it, nesting at most `depth`
/// levels.
///
/// The directory is listed for its subdirectories. A listing that fails, or
/// an unreadable entry in it, abandons the scan. Each subdirectory is scanned
/// in turn, and the first that is abandoned abandons the whole. Then the
/// directory is listed for its files; that listing must not fail, but an
/// unreadable entry in it is passed over.
pub open spec fn scan_directory<C>(
    fs: spec_fn(RequestView) -> ListingView<C>,
    name: Seq<u8>,
    path: Seq<Seq<u8>>,
    depth: nat,
) -> Scan<C, DirectoryView>
    decreases depth, 0nat,
{
    if depth == 0 {
        Scan::TooDeep
    } else {
        match fs(RequestView { path, scan: ScanKind::Directories }) {
            ListingView::Failed { cause } => Scan::Failed(
                ScanErrorView::ListingFailure { path, cause },
            ),
            ListingView::Entries { entries } => match first_unreadable(entries) {
                Some(cause) => Scan::Failed(ScanErrorView::EntryIterationFailure { path, cause }),
                None => match scan_children(
                    fs,
                    path,
                    directory_names(entries),
                    (depth - 1) as nat,
                ) {
                    Scan::TooDeep => Scan::TooDeep,
                    Scan::Failed(error) => Scan::Failed(error),
                    Scan::Built(directories) => match fs(
                        RequestView { path, scan: ScanKind::Files },
                    ) {
                        ListingView::Failed { cause } => Scan::Failed(
                            ScanErrorView::ListingFailure { path, cause },
                        ),
                        ListingView::Entries { entries: again } => Scan::Built(
                            DirectoryView { name, directories, files: file_names(again) },
                        ),
                    },
                },
            },
        }
    }
}

/// The scans of the directories called `names` inside the directory at
/// `path`, in order.
pub open spec fn scan_children<C>(
    fs: spec_fn(RequestView) -> ListingView<C>,
    path: Seq<Seq<u8>>,
    names: Seq<Seq<u8>>,
    depth: nat,
) -> Scan<C, Seq<DirectoryView>>
    decreases depth, 1 + names.len(),
{
    if names.len() == 0 {
        Scan::Built(Seq::empty())
    } else {
        match scan_directory(fs, names[0], path.push(names[0]), depth) {
            Scan::TooDeep => Scan::TooDeep,
            Scan::Failed(error) => Scan::Failed(error),
            Scan::Built(first) => match scan_children(fs, path, names.drop_first(), depth) {
                Scan::TooDeep => Scan::TooDeep,
                Scan::Failed(error) => Scan::Failed(error),
                Scan::Built(rest) => Scan::Built(seq![first] + rest),
            },
        }
    }
}

/// The builder driven for `steps` listings by the file system `fs`: each
/// request is answered with `fs` of it. A scan that has ended stays as it is.
pub open spec fn run<C>(
    fs: spec_fn(RequestView) -> ListingView<C>,
    state: StepView<C>,
    steps: nat,
) -> StepView<C>
    decreases steps,
{
    if steps == 0 {
        state
    } else {
        match state {
            StepView::Continue(builder) => run(
                fs,
                step_of(builder, fs(request_of(builder))),
                (steps - 1) as nat,
            ),
            _ => state,
        }
    }
}

/// Running for `a + b` listings is running for `a` and then for `b`.
pub proof fn lemma_run_add<C>(
    fs: spec_fn(RequestView) -> ListingView<C>,
    state: StepView<C>,
    a: nat,
    b: nat,
)
    ensures
        run(fs, state, a + b) == run(fs, run(fs, state, a), b),
    decreases a,
{
    if a > 0 {
        match state {
            StepView::Continue(builder) => {
                lemma_run_add(fs, step_of(builder, fs(request_of(builder))), (a - 1) as nat, b);
            },
            _ => {
                lemma_run_ended(fs, state, b);
                lemma_run_ended(fs, state, a + b);
            },
        }
    }
}

/// A scan that has ended stays as it is.
pub proof fn lemma_run_ended<C>(
    fs: spec_fn(RequestView) -> ListingView<C>,
    state: StepView<C>,
    steps: nat,
)
    requires
        !(state is Continue),
    ensures
        run(fs, state, steps) == state,
{
}

proof fn lemma_path_push(stack: Seq<FrameView>, frame: FrameView)
    requires
        stack.len() > 0,
    ensures
        path_of(stack.push(frame)) == path_of(stack).push(frame.name),
{
}

proof fn lemma_path_top(stack: Seq<FrameView>, frame: FrameView)
    requires
        stack.len() > 0,
        frame.name == stack.last().name,
    ensures
        path_of(stack.drop_last().push(frame)) == path_of(stack),
{
}

/// The state in which the builder has just turned to the directory `name`
/// that lies above the frames `below`.
pub open spec fn entering(below: Seq<FrameView>, name: Seq<u8>) -> BuilderView {
    BuilderView { stack: below.push(fresh(name)), awaiting: ScanKind::Directories }
}

/// The state in which the children of the top directory of `stack` are all
/// built, `built` having been added to those it had, and its files are asked
/// for.
pub open spec fn children_built(stack: Seq<FrameView>, built: Seq<DirectoryView>) -> BuilderView {
    let top = stack.last();
    BuilderView {
        stack: stack.drop_last().push(
            FrameView { pending: Seq::empty(), done: top.done + built, ..top },
        ),
        awaiting: ScanKind::Files,
    }
}

/// From the moment the builder turns to a directory, it reaches in `steps`
/// listings what the scan of that directory says: the failure, or the
/// directory handed to what lies below.
proof fn lemma_directory_run<C>(
    fs: spec_fn(RequestView) -> ListingView<C>,
    below: Seq<FrameView>,
    name: Seq<u8>,
    depth: nat,
) -> (steps: nat)
    requires
        !(scan_directory(fs, name, path_of(below.push(fresh(name))), depth) is TooDeep),
    ensures
        scan_directory(fs, name, path_of(below.push(fresh(name))), depth) matches Scan::Failed(
            error,
        ) ==> run(fs, StepView::Continue(entering(below, name)), steps) == StepView::Failed(error),
        scan_directory(fs, name, path_of(below.push(fresh(name))), depth) matches Scan::Built(dir)
            ==> run(fs, StepView::Continue(entering(below, name)), steps) == complete::<C>(
            below,
            dir,
        ) && steps == 2 * (1 + directory_count(dir)),
    decreases depth, 0nat,
{
    let state = entering(below, name);
    let path = path_of(state.stack);
    let first = step_of(state, fs(request_of(state)));
    assert(run(fs, StepView::Continue(state), 1) == first) by {
        reveal_with_fuel(run, 2);
    }
    assert(state.stack.drop_last() =~= below);
    match fs(RequestView { path, scan: ScanKind::Directories }) {
        ListingView::Failed { cause } => 1,
        ListingView::Entries { entries } => match first_unreadable(entries) {
            Some(cause) => 1,
            None => {
                let names = directory_names(entries);
                let listed = below.push(FrameView { pending: names, ..fresh(name) });
                lemma_path_top(state.stack, listed.last());
                let inner = lemma_children_run(fs, listed, (depth - 1) as nat);
                lemma_run_add(fs, StepView::Continue(state), 1, inner);
                match scan_children(fs, path, names, (depth - 1) as nat) {
                    Scan::Built(directories) => {
                        let asking = children_built(listed, directories);
                        assert(asking.stack.drop_last() =~= below);
                        lemma_path_top(listed, asking.stack.last());
                        assert(run(fs, StepView::Continue(asking), 1) == step_of(
                            asking,
                            fs(request_of(asking)),
                        )) by {
                            reveal_with_fuel(run, 2);
                        }
                        lemma_run_add(fs, StepView::Continue(state), 1 + inner, 1);
                        1 + inner + 1
                    },
                    _ => 1 + inner,
                }
            },
        },
    }
}

/// From the moment the builder turns to the pending children of the top
/// directory, it reaches in `steps` listings what the scan of those children
/// says: the failure, or the state in which they are all built.
proof fn lemma_children_run<C>(
    fs: spec_fn(RequestView) -> ListingView<C>,
    stack: Seq<FrameView>,
    depth: nat,
) -> (steps: nat)
    requires
        stack.len() > 0,
        !(scan_children(fs, path_of(stack), stack.last().pending, depth) is TooDeep),
    ensures
        scan_children(fs, path_of(stack), stack.last().pending, depth) matches Scan::Failed(error)
            ==> run(fs, StepView::Continue(advance(stack)), steps) == StepView::Failed(error),
        scan_children(fs, path_of(stack), stack.last().pending, depth) matches Scan::Built(built)
            ==> run(fs, StepView::Continue(advance(stack)), steps) == StepView::<C>::Continue(
            children_built(stack, built),
        ) && steps == 2 * (built.len() + directory_count_of_first(built, built.len())),
    decreases depth, 1 + stack.last().pending.len(),
{
    let top = stack.last();
    let path = path_of(stack);
    if top.pending.len() == 0 {
        assert(top.pending =~= Seq::<Seq<u8>>::empty());
        assert(children_built(stack, Seq::empty()).stack =~= stack);
        0
    } else {
        let name = top.pending[0];
        let waiting = FrameView { pending: top.pending.drop_first(), ..top };
        let below = stack.drop_last().push(waiting);
        lemma_path_top(stack, waiting);
        lemma_path_push(below, fresh(name));
        let down = lemma_directory_run(fs, below, name, depth);
        match scan_directory(fs, name, path.push(name), depth) {
            Scan::Built(dir) => {
                let grown = FrameView { done: top.done.push(dir), ..waiting };
                let onward = stack.drop_last().push(grown);
                assert(below.drop_last().push(grown) =~= onward);
                lemma_path_top(stack, grown);
                let across = lemma_children_run(fs, onward, depth);
                lemma_run_add(fs, StepView::Continue(advance(stack)), down, across);
                match scan_children(fs, path, top.pending.drop_first(), depth) {
                    Scan::Built(rest) => {
                        lemma_directory_count_in_front(dir, rest, rest.len());
                        assert(grown.done + rest =~= top.done + (seq![dir] + rest));
                        assert(children_built(onward, rest).stack =~= children_built(
                            stack,
                            seq![dir] + rest,
                        ).stack);
                    },
                    _ => {},
                }
                down + across
            },
            _ => down,
        }
    }
}

/// The builder computes the scan. Started on `root` and answered by `fs`, it
/// ends after `steps` listings, and with what the recursive description of
/// the scan says: the tree whose one top-level directory is the scan of the
/// root, or the failure that abandoned it. A scan that is not abandoned lists
/// every directory of the tree twice, once in each pass, and nothing more.
pub proof fn lemma_builder_computes_scan<C>(
    fs: spec_fn(RequestView) -> ListingView<C>,
    root: Seq<u8>,
    depth: nat,
) -> (steps: nat)
    requires
        !(scan_directory(fs, root, Seq::empty(), depth) is TooDeep),
    ensures
        scan_directory(fs, root, Seq::empty(), depth) matches Scan::Failed(error) ==> run(
            fs,
            StepView::Continue(start(root)),
            steps,
        ) == StepView::Failed(error),
        scan_directory(fs, root, Seq::empty(), depth) matches Scan::Built(dir) ==> run(
            fs,
            StepView::Continue(start(root)),
            steps,
        ) == StepView::<C>::Done(FileTreeView { dirs: seq![dir] }) && steps == 2 * (1
            + directory_count(dir)),
{
    let below = Seq::<FrameView>::empty();
    assert(path_of(seq![fresh(root)]) =~= Seq::<Seq<u8>>::empty());
    lemma_directory_run(fs, below, root, depth)
}

/// A scan can be repeated: against an unchanged file system the builder ends,
/// however long it is run, with the same tree or the same failure.
pub proof fn lemma_scan_is_repeatable<C>(
    fs: spec_fn(RequestView) -> ListingView<C>,
    root: Seq<u8>,
    once: nat,
    again: nat,
)
    requires
        !(run(fs, StepView::Continue(start(root)), once) is Continue),
        !(run(fs, StepView::Continue(start(root)), again) is Continue),
    ensures
        run(fs, StepView::Continue(start(root)), once) == run(
            fs,
            StepView::Continue(start(root)),
            again,
        ),
{
    let begin = StepView::<C>::Continue(start(root));
    if once <= again {
        lemma_run_add(fs, begin, once, (again - once) as nat);
        lemma_run_ended(fs, run(fs, begin, once), (again - once) as nat);
    } else {
        lemma_run_add(fs, begin, again, (once - again) as nat);
        lemma_run_ended(fs, run(fs, begin, again), (once - again) as nat);
    }
}

/// The names of the directories that are passed on the way from `dir` down
/// `path`. The name of `dir` itself is not among them.
pub open spec fn names_along(dir: DirectoryView, path: Seq<int>) -> Seq<Seq<u8>>
    decreases path.len(),
{
    if path.len() == 0 {
        Seq::empty()
    } else {
        seq![dir.directories[path[0]].name] + names_along(
            dir.directories[path[0]],
            path.drop_first(),
        )
    }
}

/// The names of a run of directories.
pub open spec fn names_of(dirs: Seq<DirectoryView>) -> Seq<Seq<u8>> {
    dirs.map_values(|dir: DirectoryView| dir.name)
}

/// Children that are built are built one for each name, in order, each the
/// scan of the directory of that name.
pub proof fn lemma_children_one_by_one<C>(
    fs: spec_fn(RequestView) -> ListingView<C>,
    path: Seq<Seq<u8>>,
    names: Seq<Seq<u8>>,
    depth: nat,
)
    requires
        scan_children(fs, path, names, depth) is Built,
    ensures
        scan_children(fs, path, names, depth)->Built_0.len() == names.len(),
        forall|j: int|
            0 <= j < names.len() ==> scan_directory(
                fs,
                #[trigger] names[j],
                path.push(names[j]),
                depth,
            ) == Scan::<C, DirectoryView>::Built(scan_children(fs, path, names, depth)->Built_0[j]),
    decreases names.len(),
{
    if names.len() > 0 {
        let rest = names.drop_first();
        lemma_children_one_by_one(fs, path, rest, depth);
        let built = scan_children(fs, path, names, depth)->Built_0;
        let others = scan_children(fs, path, rest, depth)->Built_0;
        assert forall|j: int| 0 <= j < names.len() implies scan_directory(
            fs,
            #[trigger] names[j],
            path.push(names[j]),
            depth,
        ) == Scan::<C, DirectoryView>::Built(built[j]) by {
            if j > 0 {
                assert(names[j] == rest[j - 1]);
                assert(built[j] == others[j - 1]);
            }
        }
    }
}

/// Every directory of a scanned tree mirrors its own place in the file
/// system, and no other. Where the scan of the directory `name` at `at` built
/// a tree, the directory that `path` leads to in it has the files that the
/// listing of its own path named as files, in that order, and the
/// subdirectories that the listing of its own path named as directories, in
/// that order.
pub proof fn lemma_tree_mirrors_file_system<C>(
    fs: spec_fn(RequestView) -> ListingView<C>,
    name: Seq<u8>,
    at: Seq<Seq<u8>>,
    depth: nat,
    path: Seq<int>,
)
    requires
        scan_directory(fs, name, at, depth) is Built,
        leads_down(scan_directory(fs, name, at, depth)->Built_0, path),
    ensures
        ({
            let tree = scan_directory(fs, name, at, depth)->Built_0;
            let found = descendant(tree, path);
            let place = at + names_along(tree, path);
            &&& tree.name == name
            &&& fs(RequestView { path: place, scan: ScanKind::Directories }) matches ListingView::Entries {
                entries,
            } && first_unreadable(entries) is None && names_of(found.directories)
                == directory_names(entries)
            &&& fs(RequestView { path: place, scan: ScanKind::Files }) matches ListingView::Entries {
                entries,
            } && found.files == file_names(entries)
        }),
    decreases path.len(),
{
    let tree = scan_directory(fs, name, at, depth)->Built_0;
    let listed = fs(RequestView { path: at, scan: ScanKind::Directories })->entries;
    let names = directory_names(listed);
    lemma_children_one_by_one(fs, at, names, (depth - 1) as nat);
    assert forall|j: int| 0 <= j < names.len() implies (#[trigger] tree.directories[j]).name
        == names[j] by {
        assert(scan_directory(fs, names[j], at.push(names[j]), (depth - 1) as nat) is Built);
    }
    if path.len() == 0 {
        assert(at + names_along(tree, path) =~= at);
        assert(names_of(tree.directories) =~= names);
    } else {
        let taken = path[0];
        let child = tree.directories[taken];
        lemma_tree_mirrors_file_system(
            fs,
            names[taken],
            at.push(names[taken]),
            (depth - 1) as nat,
            path.drop_first(),
        );
        assert(at.push(names[taken]) + names_along(child, path.drop_first()) =~= at + names_along(
            tree,
            path,
        ));
    }
}

/// The bound on the nesting is only a bound: wherever two bounds both
/// suffice, the scan is the same.
pub proof fn lemma_scan_needs_no_more_depth<C>(
    fs: spec_fn(RequestView) -> ListingView<C>,
    root: Seq<u8>,
    depth: nat,
    other: nat,
)
    requires
        !(scan_directory(fs, root, Seq::empty(), depth) is TooDeep),
        !(scan_directory(fs, root, Seq::empty(), other) is TooDeep),
    ensures
        scan_directory(fs, root, Seq::empty(), depth) == scan_directory(
            fs,
            root,
            Seq::empty(),
            other,
        ),
{
    let once = lemma_builder_computes_scan(fs, root, depth);
    let again = lemma_builder_computes_scan(fs, root, other);
    lemma_scan_is_repeatable(fs, root, once, again);
    match (
        scan_directory(fs, root, Seq::empty(), depth),
        scan_directory(fs, root, Seq::empty(), other),
    ) {
        (Scan::Built(dir), Scan::Built(same)) => {
            assert(seq![dir][0] == seq![same][0]);
        },
        _ => {},
    }
}

} // verus!
