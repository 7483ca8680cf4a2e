use dirtree::render::RenderError;
use dirtree::tree::{Directory, FileTree};

fn name(text: &str) -> Vec<u8> {
    text.as_bytes().to_vec()
}

fn dir(text: &str, directories: Vec<Directory>, files: &[&str]) -> Directory {
    Directory { name: name(text), directories, files: files.iter().map(|f| name(f)).collect() }
}

/// The number of indentation units in front of the connector.
fn units(line: &str) -> usize {
    let blanks = line.chars().take_while(|c| *c == ' ').count();
    assert_eq!(blanks % 3, 0);
    assert!(line[blanks..].starts_with("└──"));
    blanks / 3
}

/// The name behind the connector.
fn shown(line: &str) -> &str {
    line.trim_start_matches(' ').strip_prefix("└──").unwrap()
}

fn sample() -> Directory {
    dir(
        "root",
        vec![
            dir("one", vec![dir("deep", vec![], &["x", "y"])], &["in_one"]),
            dir("two", vec![], &[]),
            dir("three", vec![dir("last", vec![], &[])], &["p", "q", "r"]),
        ],
        &["top_a", "top_b"],
    )
}

#[test]
fn file_and_subdirectory_render_in_preorder() {
    let root = dir("root", vec![dir("sub", vec![], &["b.txt"])], &["a.txt"]);
    let tree = FileTree { dirs: vec![root] };
    let lines = tree.display_tree().unwrap();
    assert_eq!(lines, vec!["   └──root", "   └──a.txt", "      └──sub", "      └──b.txt"]);
    let order: Vec<&str> = lines.iter().map(|l| shown(l)).collect();
    assert_eq!(order, vec!["root", "a.txt", "sub", "b.txt"]);
    assert_eq!(units(&lines[0]), 1);
    assert_eq!(units(&lines[1]), 1);
    assert_eq!(units(&lines[2]), 2);
    assert_eq!(units(&lines[3]), units(&lines[2]));
}

#[test]
fn empty_directory_is_one_line() {
    let lines = dir("lonely", vec![], &[]).display_directory(1).unwrap();
    assert_eq!(lines, vec!["   └──lonely"]);
    let lines = FileTree { dirs: vec![dir("lonely", vec![], &[])] }.display_tree().unwrap();
    assert_eq!(lines, vec!["   └──lonely"]);
}

#[test]
fn empty_subdirectory_adds_one_line() {
    let without = dir("root", vec![], &["f"]).display_directory(1).unwrap();
    let with = dir("root", vec![dir("empty", vec![], &[])], &["f"]).display_directory(1).unwrap();
    assert_eq!(with.len(), without.len() + 1);
    assert_eq!(with[2], "      └──empty");
}

#[test]
fn every_file_and_directory_has_one_line() {
    // 8 files and 5 directories below the root
    let lines = FileTree { dirs: vec![sample()] }.display_tree().unwrap();
    assert_eq!(lines.len() - 1, 8 + 5);
    let mut names: Vec<&str> = lines.iter().map(|l| shown(l)).collect();
    names.sort();
    let mut expected = vec![
        "root", "one", "deep", "x", "y", "in_one", "two", "three", "last", "p", "q", "r", "top_a",
        "top_b",
    ];
    expected.sort();
    assert_eq!(names, expected);
}

#[test]
fn whole_listing_of_a_nested_tree() {
    let lines = sample().display_directory(1).unwrap();
    assert_eq!(
        lines,
        vec![
            "   └──root",
            "   └──top_a",
            "   └──top_b",
            "      └──one",
            "      └──in_one",
            "         └──deep",
            "         └──x",
            "         └──y",
            "      └──two",
            "      └──three",
            "      └──p",
            "      └──q",
            "      └──r",
            "         └──last",
        ]
    );
}

#[test]
fn files_stand_right_under_their_own_directory() {
    let root = dir(
        "root",
        vec![dir("a", vec![dir("b", vec![], &["same", "of_b"])], &["same", "of_a"])],
        &["same", "of_root"],
    );
    let lines = root.display_directory(1).unwrap();
    let order: Vec<&str> = lines.iter().map(|l| shown(l)).collect();
    assert_eq!(order, vec!["root", "same", "of_root", "a", "same", "of_a", "b", "same", "of_b"]);
    let depths: Vec<usize> = lines.iter().map(|l| units(l)).collect();
    assert_eq!(depths, vec![1, 1, 1, 2, 2, 2, 3, 3, 3]);
}

#[test]
fn files_keep_their_stored_order() {
    let lines = dir("d", vec![], &["zeta", "alpha", "mid"]).display_directory(1).unwrap();
    let order: Vec<&str> = lines.iter().map(|l| shown(l)).collect();
    assert_eq!(order, vec!["d", "zeta", "alpha", "mid"]);
}

#[test]
fn directory_depth_is_its_number_of_units() {
    let mut chain = dir("level5", vec![], &[]);
    for level in (1..5).rev() {
        chain = dir(&format!("level{}", level), vec![chain], &[]);
    }
    let lines = FileTree { dirs: vec![chain] }.display_tree().unwrap();
    assert_eq!(lines.len(), 5);
    for (index, line) in lines.iter().enumerate() {
        assert_eq!(units(line), index + 1);
        assert_eq!(shown(line), format!("level{}", index + 1));
    }
}

#[test]
fn indentation_grows_with_the_starting_depth() {
    let d = dir("d", vec![dir("e", vec![], &[])], &["f"]);
    assert_eq!(d.display_directory(0).unwrap(), vec!["└──d", "└──f", "   └──e"]);
    assert_eq!(d.display_directory(1).unwrap(), vec!["   └──d", "   └──f", "      └──e"]);
    assert_eq!(
        d.display_directory(3).unwrap(),
        vec!["         └──d", "         └──f", "            └──e"]
    );
}

#[test]
fn top_level_directories_follow_one_another() {
    let tree = FileTree { dirs: vec![dir("first", vec![], &["f"]), dir("second", vec![], &[])] };
    assert_eq!(tree.display_tree().unwrap(), vec!["   └──first", "   └──f", "   └──second"]);
}

#[test]
fn tree_without_directories_has_no_lines() {
    let tree = FileTree { dirs: vec![] };
    assert_eq!(tree.display_tree().unwrap(), Vec::<String>::new());
}

#[test]
fn names_are_decoded_as_utf8() {
    let d = Directory {
        name: vec![0xC3, 0xA9, 0x74, 0xC3, 0xA9],
        directories: vec![],
        files: vec![vec![0xE2, 0x82, 0xAC], vec![0xF0, 0x9F, 0x93, 0x81, b'!']],
    };
    assert_eq!(d.display_directory(1).unwrap(), vec!["   └──été", "   └──€", "   └──📁!"]);
}

#[test]
fn names_are_printed_as_they_are() {
    let d = dir("with space", vec![], &["quo\"te", "  lead", "└──"]);
    assert_eq!(
        d.display_directory(1).unwrap(),
        vec!["   └──with space", "   └──quo\"te", "   └──  lead", "   └──└──"]
    );
}

#[test]
fn empty_name_leaves_the_connector() {
    assert_eq!(dir("", vec![], &[""]).display_directory(2).unwrap(), vec!["      └──", "      └──"]);
}

#[test]
fn undecodable_directory_name_fails() {
    let d = Directory { name: vec![b'o', b'k', 0xFF], directories: vec![], files: vec![] };
    assert_eq!(
        d.display_directory(1),
        Err(RenderError::NameDecodingFailure { name: vec![b'o', b'k', 0xFF] })
    );
}

#[test]
fn undecodable_file_name_fails() {
    let d = Directory {
        name: name("d"),
        directories: vec![],
        files: vec![name("fine"), vec![0xC3], name("later")],
    };
    assert_eq!(d.display_directory(1), Err(RenderError::NameDecodingFailure { name: vec![0xC3] }));
}

#[test]
fn first_undecodable_name_in_printing_order_is_reported() {
    let bad_below = Directory { name: vec![0x80, 1], directories: vec![], files: vec![vec![0x80, 2]] };
    let later = Directory { name: vec![0x80, 3], directories: vec![], files: vec![] };
    let root = Directory {
        name: name("root"),
        directories: vec![dir("good", vec![bad_below], &["f"]), later],
        files: vec![name("a")],
    };
    let tree = FileTree { dirs: vec![root] };
    assert_eq!(tree.display_tree(), Err(RenderError::NameDecodingFailure { name: vec![0x80, 1] }));

    let root = Directory {
        name: name("root"),
        directories: vec![Directory { name: vec![0x80, 4], directories: vec![], files: vec![] }],
        files: vec![name("a"), vec![0x80, 5]],
    };
    assert_eq!(
        root.display_directory(1),
        Err(RenderError::NameDecodingFailure { name: vec![0x80, 5] })
    );
}

#[test]
fn overlong_and_surrogate_encodings_are_not_text() {
    for bytes in [vec![0xC0, 0x80], vec![0xED, 0xA0, 0x80], vec![0xF4, 0x90, 0x80, 0x80]] {
        let d = Directory { name: bytes.clone(), directories: vec![], files: vec![] };
        assert_eq!(d.display_directory(1), Err(RenderError::NameDecodingFailure { name: bytes }));
    }
}

#[test]
fn rendering_twice_gives_the_same_lines() {
    let tree = FileTree { dirs: vec![sample()] };
    assert_eq!(tree.display_tree(), tree.display_tree());
}
