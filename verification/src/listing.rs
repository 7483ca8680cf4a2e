//! What listing one directory yields, and how a listing is sorted into
//! subdirectories and files.

use crate::tree::name_views;
use vstd::prelude::*;

verus! {

/// What the status check of an entry says it is.
#[derive(Debug, Clone, Copy, PartialEq, Eq)]
pub enum EntryKind {
    Directory,
    File,
    /// Neither of the two: a socket, a device, a link that leads nowhere.
    Other,
}

/// One entry of a listing. `C` is whatever the caller attaches to a failure as
/// its cause; the library hands it on and never looks inside.
#[derive(Debug, Clone, PartialEq, Eq)]
pub enum Entry<C> {
    /// The entry could not be read.
    Unreadable { cause: C },
    /// The entry was read: its base name and what it is.
    Named { name: Vec<u8>, kind: EntryKind },
}

/// The mathematical value of an [`Entry`].
pub ghost enum EntryView<C> {
    Unreadable { cause: C },
    Named { name: Seq<u8>, kind: EntryKind },
}

impl<C> View for Entry<C> {
    type V = EntryView<C>;

    open spec fn view(&self) -> EntryView<C> {
        match *self {
            Entry::Unreadable { cause } => EntryView::Unreadable { cause },
            Entry::Named { name, kind } => EntryView::Named { name: name@, kind },
        }
    }
}

/// The answer to a request to list one directory.
#[derive(Debug, Clone, PartialEq, Eq)]
pub enum Listing<C> {
    /// The directory could not be listed at all.
    Failed { cause: C },
    /// The entries, in the order in which they were yielded.
    Entries { entries: Vec<Entry<C>> },
}

/// The mathematical value of a [`Listing`].
pub ghost enum ListingView<C> {
    Failed { cause: C },
    Entries { entries: Seq<EntryView<C>> },
}

/// The values of a run of entries.
pub open spec fn entry_views<C>(entries: Seq<Entry<C>>) -> Seq<EntryView<C>> {
    entries.map_values(|entry: Entry<C>| entry@)
}

impl<C> View for Listing<C> {
    type V = ListingView<C>;

    open spec fn view(&self) -> ListingView<C> {
        match *self {
            Listing::Failed { cause } => ListingView::Failed { cause },
            Listing::Entries { entries } => ListingView::Entries { entries: entry_views(entries@) },
        }
    }
}

/// The name of `entry` if it is a directory.
pub open spec fn directory_name<C>(entry: EntryView<C>) -> Option<Seq<u8>> {
    match entry {
        EntryView::Named { name, kind: EntryKind::Directory } => Some(name),
        _ => None,
    }
}

/// The name of `entry` if it is a file.
pub open spec fn file_name<C>(entry: EntryView<C>) -> Option<Seq<u8>> {
    match entry {
        EntryView::Named { name, kind: EntryKind::File } => Some(name),
        _ => None,
    }
}

/// The names of the directories among `entries`, in order.
pub open spec fn directory_names<C>(entries: Seq<EntryView<C>>) -> Seq<Seq<u8>> {
    entries.filter_map(|entry: EntryView<C>| directory_name(entry))
}

/// The names of the files among `entries`, in order. Unreadable entries are
/// passed over.
pub open spec fn file_names<C>(entries: Seq<EntryView<C>>) -> Seq<Seq<u8>> {
    entries.filter_map(|entry: EntryView<C>| file_name(entry))
}

/// The cause of the first unreadable entry, if there is one.
pub open spec fn first_unreadable<C>(entries: Seq<EntryView<C>>) -> Option<C>
    decreases entries.len(),
{
    if entries.len() == 0 {
        None
    } else {
        match entries[0] {
            EntryView::Unreadable { cause } => Some(cause),
            _ => first_unreadable(entries.drop_first()),
        }
    }
}

/// The first unreadable entry is the one that only readable entries precede.
pub proof fn lemma_first_unreadable_at<C>(entries: Seq<EntryView<C>>, at: int)
    requires
        0 <= at <= entries.len(),
        forall|k: int| 0 <= k < at ==> (#[trigger] entries[k]) is Named,
        at < entries.len() ==> entries[at] is Unreadable,
    ensures
        first_unreadable(entries) == if at < entries.len() {
            Some(entries[at]->cause)
        } else {
            None
        },
    decreases at,
{
    if at > 0 {
        let rest = entries.drop_first();
        assert forall|k: int| 0 <= k < at - 1 implies (#[trigger] rest[k]) is Named by {
            assert(rest[k] == entries[k + 1]);
        }
        lemma_first_unreadable_at(rest, at - 1);
    }
}

/// What is picked out of a listing is what the listing holds: a value is
/// among the picked ones exactly if some entry yields it. So which values are
/// picked does not depend on the order of the entries.
pub proof fn lemma_picked_are_those_listed<C>(
    entries: Seq<EntryView<C>>,
    pick: spec_fn(EntryView<C>) -> Option<Seq<u8>>,
    name: Seq<u8>,
)
    ensures
        entries.filter_map(pick).contains(name) <==> exists|i: int|
            0 <= i < entries.len() && pick(#[trigger] entries[i]) == Some(name),
    decreases entries.len(),
{
    if entries.len() > 0 {
        let rest = entries.drop_last();
        let picked = rest.filter_map(pick);
        lemma_picked_are_those_listed(rest, pick, name);
        if pick(entries.last()) == Some(name) {
            let all = entries.filter_map(pick);
            assert(all[all.len() - 1] == name);
        } else {
            if entries.filter_map(pick).contains(name) {
                let i = choose|i: int| 0 <= i < rest.len() && pick(#[trigger] rest[i]) == Some(name);
                assert(entries[i] == rest[i]);
            }
            if exists|i: int| 0 <= i < entries.len() && pick(#[trigger] entries[i]) == Some(name) {
                let i = choose|i: int|
                    0 <= i < entries.len() && pick(#[trigger] entries[i]) == Some(name);
                assert(rest[i] == entries[i]);
                let at = choose|j: int| 0 <= j < picked.len() && picked[j] == name;
                let all = entries.filter_map(pick);
                assert(all[at] == name);
            }
        }
    }
}

/// The files found are the files listed, and nothing else: no directory, no
/// entry of another kind, no unreadable entry.
pub proof fn lemma_files_are_those_listed<C>(entries: Seq<EntryView<C>>, name: Seq<u8>)
    ensures
        file_names(entries).contains(name) <==> exists|i: int|
            0 <= i < entries.len() && #[trigger] entries[i] == (EntryView::<C>::Named {
                name,
                kind: EntryKind::File,
            }),
{
    let pick = |entry: EntryView<C>| file_name(entry);
    lemma_picked_are_those_listed(entries, pick, name);
}

/// The directories found are the directories listed, and nothing else.
pub proof fn lemma_directories_are_those_listed<C>(entries: Seq<EntryView<C>>, name: Seq<u8>)
    ensures
        directory_names(entries).contains(name) <==> exists|i: int|
            0 <= i < entries.len() && #[trigger] entries[i] == (EntryView::<C>::Named {
                name,
                kind: EntryKind::Directory,
            }),
{
    let pick = |entry: EntryView<C>| directory_name(entry);
    lemma_picked_are_those_listed(entries, pick, name);
}

/// The subdirectories that a listing names, in its order. One unreadable
/// entry fails the whole listing: the cause of the first, and no names.
pub fn find_directories<C>(entries: Vec<Entry<C>>) -> (found: Result<Vec<Vec<u8>>, C>)
    ensures
        match found {
            Ok(names) => first_unreadable(entry_views(entries@)) is None && name_views(names@)
                == directory_names(entry_views(entries@)),
            Err(cause) => first_unreadable(entry_views(entries@)) == Some(cause),
        },
{
    let ghost listed = entry_views(entries@);
    let mut names: Vec<Vec<u8>> = Vec::new();
    for entry in it: entries
        invariant
            listed == entry_views(entries@),
            forall|k: int| 0 <= k < it.index() ==> (#[trigger] listed[k]) is Named,
            name_views(names@) == directory_names(listed.take(it.index() as int)),
    {
        match entry {
            Entry::Unreadable { cause } => {
                proof {
                    lemma_first_unreadable_at(listed, it.index() as int);
                }
                return Err(cause);
            },
            Entry::Named { name, kind } => {
                proof {
                    listed.lemma_filter_map_take_succ(
                        |entry: EntryView<C>| directory_name(entry),
                        it.index() as int,
                    );
                }
                match kind {
                    EntryKind::Directory => {
                        names.push(name);
                    },
                    _ => {},
                }
            },
        }
    }
    proof {
        lemma_first_unreadable_at(listed, listed.len() as int);
        assert(listed.take(listed.len() as int) =~= listed);
    }
    Ok(names)
}

/// The files that a listing names, in its order. An unreadable entry is
/// passed over and the rest is kept.
pub fn find_files<C>(entries: Vec<Entry<C>>) -> (names: Vec<Vec<u8>>)
    ensures
        name_views(names@) == file_names(entry_views(entries@)),
{
    let ghost listed = entry_views(entries@);
    let mut names: Vec<Vec<u8>> = Vec::new();
    for entry in it: entries
        invariant
            listed == entry_views(entries@),
            name_views(names@) == file_names(listed.take(it.index() as int)),
    {
        proof {
            listed.lemma_filter_map_take_succ(
                |entry: EntryView<C>| file_name(entry),
                it.index() as int,
            );
        }
        match entry {
            Entry::Named { name, kind: EntryKind::File } => {
                names.push(name);
            },
            _ => {},
        }
    }
    assert(listed.take(listed.len() as int) =~= listed);
    names
}

} // verus!
