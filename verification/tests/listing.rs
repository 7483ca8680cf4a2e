use dirtree::listing::{find_directories, find_files, Entry, EntryKind};

fn named(text: &str, kind: EntryKind) -> Entry<u32> {
    Entry::Named { name: text.as_bytes().to_vec(), kind }
}

fn names(texts: &[&str]) -> Vec<Vec<u8>> {
    texts.iter().map(|t| t.as_bytes().to_vec()).collect()
}

fn mixed() -> Vec<Entry<u32>> {
    vec![
        named("z_dir", EntryKind::Directory),
        named("b_file", EntryKind::File),
        named("socket", EntryKind::Other),
        named("a_dir", EntryKind::Directory),
        named("a_file", EntryKind::File),
    ]
}

#[test]
fn directories_are_found_in_listing_order() {
    assert_eq!(find_directories(mixed()), Ok(names(&["z_dir", "a_dir"])));
}

#[test]
fn files_are_found_in_listing_order() {
    assert_eq!(find_files(mixed()), names(&["b_file", "a_file"]));
}

#[test]
fn empty_listing_has_neither() {
    assert_eq!(find_directories(Vec::<Entry<u32>>::new()), Ok(vec![]));
    assert_eq!(find_files(Vec::<Entry<u32>>::new()), Vec::<Vec<u8>>::new());
}

#[test]
fn other_kinds_are_neither_file_nor_directory() {
    let entries = vec![named("fifo", EntryKind::Other), named("dangling", EntryKind::Other)];
    assert_eq!(find_directories(entries.clone()), Ok(vec![]));
    assert_eq!(find_files(entries), Vec::<Vec<u8>>::new());
}

#[test]
fn same_name_may_occur_as_file_and_directory() {
    let entries = vec![named("x", EntryKind::File), named("x", EntryKind::Directory)];
    assert_eq!(find_directories(entries.clone()), Ok(names(&["x"])));
    assert_eq!(find_files(entries), names(&["x"]));
}

#[test]
fn unreadable_entry_fails_the_search_for_directories() {
    let mut entries = mixed();
    entries.insert(3, Entry::Unreadable { cause: 5 });
    assert_eq!(find_directories(entries), Err(5));
}

#[test]
fn first_unreadable_entry_gives_the_cause() {
    let entries = vec![
        named("d", EntryKind::Directory),
        Entry::Unreadable { cause: 1 },
        Entry::Unreadable { cause: 2 },
    ];
    assert_eq!(find_directories(entries), Err(1));
    assert_eq!(find_directories(vec![Entry::Unreadable { cause: 9 }]), Err(9));
}

#[test]
fn unreadable_entry_is_passed_over_among_files() {
    let mut entries = mixed();
    entries.insert(1, Entry::Unreadable { cause: 5 });
    entries.push(Entry::Unreadable { cause: 6 });
    assert_eq!(find_files(entries), names(&["b_file", "a_file"]));
    assert_eq!(find_files(vec![Entry::Unreadable { cause: 7 }]), Vec::<Vec<u8>>::new());
}

#[test]
fn names_need_not_be_text() {
    let entries: Vec<Entry<u32>> = vec![
        Entry::Named { name: vec![0xFF, 0x00], kind: EntryKind::File },
        Entry::Named { name: vec![0x80], kind: EntryKind::Directory },
    ];
    assert_eq!(find_files(entries.clone()), vec![vec![0xFF, 0x00]]);
    assert_eq!(find_directories(entries), Ok(vec![vec![0x80]]));
}
