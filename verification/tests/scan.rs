use dirtree::builder::{root_name, Request, ScanError, ScanKind, Step, TreeBuilder};
use dirtree::listing::{Entry, EntryKind, Listing};
use dirtree::tree::{Directory, FileTree};

fn name(text: &str) -> Vec<u8> {
    text.as_bytes().to_vec()
}

fn names(texts: &[&str]) -> Vec<Vec<u8>> {
    texts.iter().map(|t| name(t)).collect()
}

fn dir(text: &str, directories: Vec<Directory>, files: &[&str]) -> Directory {
    Directory { name: name(text), directories, files: names(files) }
}

fn d(text: &str) -> Entry<String> {
    Entry::Named { name: name(text), kind: EntryKind::Directory }
}

fn f(text: &str) -> Entry<String> {
    Entry::Named { name: name(text), kind: EntryKind::File }
}

fn other(text: &str) -> Entry<String> {
    Entry::Named { name: name(text), kind: EntryKind::Other }
}

fn bad(cause: &str) -> Entry<String> {
    Entry::Unreadable { cause: cause.to_string() }
}

fn entries(list: Vec<Entry<String>>) -> Listing<String> {
    Listing::Entries { entries: list }
}

fn failed(cause: &str) -> Listing<String> {
    Listing::Failed { cause: cause.to_string() }
}

fn joined(request: &Request) -> String {
    let parts: Vec<String> =
        request.path.iter().map(|n| String::from_utf8(n.clone()).unwrap()).collect();
    parts.join("/")
}

/// Drives a builder to its end and keeps the requests it made.
fn scan(
    root: &str,
    fs: &dyn Fn(&str, ScanKind) -> Listing<String>,
) -> (Result<FileTree, ScanError<String>>, Vec<(String, ScanKind)>) {
    let mut asked = Vec::new();
    let mut builder = TreeBuilder::begin(name(root));
    loop {
        let request = builder.request();
        let path = joined(&request);
        asked.push((path.clone(), request.scan));
        assert!(asked.len() < 10_000);
        match builder.step(fs(&path, request.scan)) {
            Step::Continue(next) => builder = next,
            Step::Done(tree) => return (Ok(tree), asked),
            Step::Failed(error) => return (Err(error), asked),
        }
    }
}

/// root: a.txt, sub/ ; sub: b.txt
fn small(path: &str, _scan: ScanKind) -> Listing<String> {
    match path {
        "" => entries(vec![f("a.txt"), d("sub")]),
        "sub" => entries(vec![f("b.txt")]),
        _ => failed("no such directory"),
    }
}

/// A tree three levels deep, with entries in no particular order.
fn large(path: &str, _scan: ScanKind) -> Listing<String> {
    match path {
        "" => entries(vec![d("zoo"), f("notes"), other("pipe"), d("apps"), f("a")]),
        "zoo" => entries(vec![f("lion"), d("cages"), f("bear")]),
        "zoo/cages" => entries(vec![f("notes"), d("empty")]),
        "zoo/cages/empty" => entries(vec![]),
        "apps" => entries(vec![other("sock"), f("notes")]),
        _ => failed("no such directory"),
    }
}

fn large_tree() -> FileTree {
    FileTree {
        dirs: vec![dir(
            "top",
            vec![
                dir(
                    "zoo",
                    vec![dir("cages", vec![dir("empty", vec![], &[])], &["notes"])],
                    &["lion", "bear"],
                ),
                dir("apps", vec![], &["notes"]),
            ],
            &["notes", "a"],
        )],
    }
}

#[test]
fn scan_builds_file_and_subdirectory() {
    let (tree, _) = scan("root", &small);
    let expected =
        FileTree { dirs: vec![dir("root", vec![dir("sub", vec![], &["b.txt"])], &["a.txt"])] };
    assert_eq!(tree, Ok(expected));
}

#[test]
fn scanned_tree_renders_in_preorder() {
    let (tree, _) = scan("root", &small);
    let lines = tree.unwrap().display_tree().unwrap();
    assert_eq!(lines, vec!["   └──root", "   └──a.txt", "      └──sub", "      └──b.txt"]);
}

#[test]
fn scan_asks_depth_first() {
    let (_, asked) = scan("root", &small);
    assert_eq!(
        asked,
        vec![
            ("".to_string(), ScanKind::Directories),
            ("sub".to_string(), ScanKind::Directories),
            ("sub".to_string(), ScanKind::Files),
            ("".to_string(), ScanKind::Files),
        ]
    );
}

#[test]
fn scan_keeps_each_file_in_its_own_directory() {
    let (tree, asked) = scan("top", &large);
    assert_eq!(tree, Ok(large_tree()));
    // each directory is listed once for each pass
    assert_eq!(asked.len(), 2 * 5);
}

#[test]
fn scan_keeps_the_order_of_the_listing() {
    let (tree, _) = scan("top", &large);
    let tree = tree.unwrap();
    let root = &tree.dirs[0];
    assert_eq!(root.files, names(&["notes", "a"]));
    let subdirectories: Vec<&Vec<u8>> = root.directories.iter().map(|d| &d.name).collect();
    assert_eq!(subdirectories, vec![&name("zoo"), &name("apps")]);
}

#[test]
fn scan_has_one_top_level_directory() {
    let (tree, _) = scan("top", &large);
    let tree = tree.unwrap();
    assert_eq!(tree.dirs.len(), 1);
    assert_eq!(tree.dirs[0].name, name("top"));
}

#[test]
fn scan_of_an_empty_root() {
    let (tree, asked) = scan("void", &|_, _| entries(vec![]));
    assert_eq!(tree, Ok(FileTree { dirs: vec![dir("void", vec![], &[])] }));
    assert_eq!(asked.len(), 2);
    assert_eq!(tree.unwrap().display_tree().unwrap(), vec!["   └──void"]);
}

#[test]
fn scanning_twice_gives_the_same_tree() {
    let (first, asked_first) = scan("top", &large);
    let (second, asked_second) = scan("top", &large);
    assert!(first.is_ok());
    assert_eq!(first, second);
    assert_eq!(asked_first, asked_second);
}

#[test]
fn scanned_lines_are_one_per_file_and_directory() {
    let (tree, _) = scan("top", &large);
    let lines = tree.unwrap().display_tree().unwrap();
    // 6 files and 4 directories below the root
    assert_eq!(lines.len() - 1, 6 + 4);
}

#[test]
fn root_that_cannot_be_listed_fails_the_scan() {
    let (tree, asked) = scan("gone", &|_, _| failed("not a directory"));
    assert_eq!(
        tree,
        Err(ScanError::ListingFailure { path: vec![], cause: "not a directory".to_string() })
    );
    assert_eq!(asked, vec![("".to_string(), ScanKind::Directories)]);
}

#[test]
fn subdirectory_that_cannot_be_listed_fails_the_whole_scan() {
    let fs = |path: &str, scan: ScanKind| match path {
        "zoo/cages" => failed("permission denied"),
        _ => large(path, scan),
    };
    let (tree, asked) = scan("top", &fs);
    assert_eq!(
        tree,
        Err(ScanError::ListingFailure {
            path: names(&["zoo", "cages"]),
            cause: "permission denied".to_string()
        })
    );
    assert_eq!(asked.last(), Some(&("zoo/cages".to_string(), ScanKind::Directories)));
    assert_eq!(asked.len(), 3);
}

#[test]
fn directory_that_vanishes_between_the_passes_fails_the_scan() {
    let fs = |path: &str, scan: ScanKind| match (path, scan) {
        ("apps", ScanKind::Files) => failed("vanished"),
        _ => large(path, scan),
    };
    let (tree, _) = scan("top", &fs);
    assert_eq!(
        tree,
        Err(ScanError::ListingFailure { path: names(&["apps"]), cause: "vanished".to_string() })
    );
}

#[test]
fn root_files_that_cannot_be_listed_fail_the_scan() {
    let fs = |path: &str, scan: ScanKind| match (path, scan) {
        ("", ScanKind::Files) => failed("late"),
        _ => small(path, scan),
    };
    let (tree, asked) = scan("root", &fs);
    assert_eq!(tree, Err(ScanError::ListingFailure { path: vec![], cause: "late".to_string() }));
    assert_eq!(asked.len(), 4);
}

#[test]
fn unreadable_entry_fails_the_pass_for_directories() {
    let fs = |path: &str, scan: ScanKind| match (path, scan) {
        ("zoo", ScanKind::Directories) => entries(vec![f("lion"), d("cages"), bad("io"), f("bear")]),
        _ => large(path, scan),
    };
    let (tree, asked) = scan("top", &fs);
    assert_eq!(
        tree,
        Err(ScanError::EntryIterationFailure { path: names(&["zoo"]), cause: "io".to_string() })
    );
    // the failure is seen before any subdirectory of zoo is entered
    assert_eq!(asked.len(), 2);
}

#[test]
fn unreadable_entry_is_passed_over_in_the_pass_for_files() {
    let fs = |path: &str, scan: ScanKind| match (path, scan) {
        ("zoo", ScanKind::Files) => entries(vec![f("lion"), bad("io"), d("cages"), f("bear")]),
        ("", ScanKind::Files) => entries(vec![bad("one"), f("notes"), bad("two"), f("a")]),
        _ => large(path, scan),
    };
    let (tree, _) = scan("top", &fs);
    assert_eq!(tree, Ok(large_tree()));
}

#[test]
fn each_pass_goes_by_its_own_listing() {
    let fs = |path: &str, scan: ScanKind| match (path, scan) {
        ("", ScanKind::Directories) => entries(vec![d("sub"), f("early")]),
        ("", ScanKind::Files) => entries(vec![d("new"), f("late")]),
        ("sub", _) => entries(vec![]),
        _ => failed("no such directory"),
    };
    let (tree, _) = scan("root", &fs);
    assert_eq!(tree, Ok(FileTree { dirs: vec![dir("root", vec![dir("sub", vec![], &[])], &["late"])] }));
}

#[test]
fn first_failure_in_scan_order_is_reported() {
    let fs = |path: &str, scan: ScanKind| match path {
        "zoo/cages/empty" => failed("first"),
        "apps" => failed("second"),
        _ => large(path, scan),
    };
    let (tree, _) = scan("top", &fs);
    assert_eq!(
        tree,
        Err(ScanError::ListingFailure {
            path: names(&["zoo", "cages", "empty"]),
            cause: "first".to_string()
        })
    );
}

#[test]
fn deep_nesting_is_followed_to_the_bottom() {
    let fs = |path: &str, _scan: ScanKind| {
        if path.split('/').filter(|p| !p.is_empty()).count() < 40 {
            entries(vec![f("leaf"), d("down")])
        } else {
            entries(vec![f("bottom")])
        }
    };
    let (tree, asked) = scan("top", &fs);
    let tree = tree.unwrap();
    assert_eq!(asked.len(), 2 * 41);
    let mut at = &tree.dirs[0];
    for _ in 0..40 {
        assert_eq!(at.files, names(&["leaf"]));
        assert_eq!(at.directories.len(), 1);
        at = &at.directories[0];
        assert_eq!(at.name, name("down"));
    }
    assert_eq!(at.files, names(&["bottom"]));
    assert!(at.directories.is_empty());
    let lines = tree.display_tree().unwrap();
    assert_eq!(lines.len(), 41 + 41);
    assert_eq!(lines[81], format!("{}└──bottom", "   ".repeat(41)));
}

#[test]
fn request_of_a_new_builder_is_for_the_root() {
    let builder = TreeBuilder::begin(name("root"));
    assert_eq!(builder.request(), Request { path: vec![], scan: ScanKind::Directories });
}

#[test]
fn names_that_are_not_text_are_kept_as_bytes() {
    let odd = vec![0xFF, 0xFE];
    let odd_dir = odd.clone();
    let fs = move |path: &Request| -> Listing<String> {
        if path.path.is_empty() {
            entries(vec![Entry::Named { name: odd_dir.clone(), kind: EntryKind::Directory }])
        } else {
            entries(vec![Entry::Named { name: vec![0x80], kind: EntryKind::File }])
        }
    };
    let mut builder = TreeBuilder::begin(name("root"));
    let mut requests = Vec::new();
    let tree = loop {
        let request = builder.request();
        requests.push(request.clone());
        match builder.step(fs(&request)) {
            Step::Continue(next) => builder = next,
            Step::Done(tree) => break tree,
            Step::Failed(error) => panic!("{:?}", error),
        }
    };
    assert_eq!(requests[1], Request { path: vec![odd.clone()], scan: ScanKind::Directories });
    assert_eq!(tree.dirs[0].directories[0].name, odd);
    assert_eq!(tree.dirs[0].directories[0].files, vec![vec![0x80]]);
    assert!(tree.dirs[0].files.is_empty());
}

#[test]
fn root_takes_the_last_component_as_its_name() {
    assert_eq!(root_name(Some(name("project"))), name("project"));
    assert_eq!(root_name(Some(vec![0xFF])), vec![0xFF]);
}

#[test]
fn root_without_a_last_component_gets_the_placeholder() {
    assert_eq!(root_name(None), name("Error when reading root"));
    let (tree, _) = scan(&String::from_utf8(root_name(None)).unwrap(), &|_, _| entries(vec![]));
    assert_eq!(tree.unwrap().display_tree().unwrap(), vec!["   └──Error when reading root"]);
}
