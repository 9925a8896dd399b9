use missing_files::error::CompareError;
use missing_files::walker::{DirEntry, EntryKind, Walker};

type Tree = Vec<(&'static str, Vec<(&'static str, EntryKind)>)>;

fn listing(tree: &Tree, dir: &str) -> Option<Vec<DirEntry>> {
    for (path, entries) in tree.iter() {
        if *path == dir {
            return Some(
                entries.iter().map(|e| DirEntry { path: e.0.to_string(), kind: e.1 }).collect(),
            );
        }
    }
    None
}

fn walk(tree: &Tree, root: &str, max_depth: i16) -> (Result<Vec<String>, CompareError>, Vec<String>) {
    let mut listed = Vec::new();
    let mut walker = Walker::new(root.to_string(), max_depth);
    while let Some(dir) = walker.next_directory() {
        listed.push(dir.clone());
        match listing(tree, &dir) {
            Some(entries) => walker.supply(entries),
            None => walker.fail(),
        }
    }
    (walker.finish(), listed)
}

fn sample_tree() -> Tree {
    vec![
        (
            "root",
            vec![
                ("root/a.txt", EntryKind::File),
                ("root/sub", EntryKind::Directory),
                ("root/link", EntryKind::Other),
                ("root/b.txt", EntryKind::File),
                ("root/empty", EntryKind::Directory),
            ],
        ),
        (
            "root/sub",
            vec![
                ("root/sub/c.txt", EntryKind::File),
                ("root/sub/deep", EntryKind::Directory),
                ("root/sub/d.txt", EntryKind::File),
            ],
        ),
        ("root/empty", vec![]),
        (
            "root/sub/deep",
            vec![("root/sub/deep/e.txt", EntryKind::File), ("root/sub/deep/deeper", EntryKind::Directory)],
        ),
        ("root/sub/deep/deeper", vec![("root/sub/deep/deeper/f.txt", EntryKind::File)]),
    ]
}

#[test]
fn depth_one_finds_only_the_entries_of_the_root() {
    let (files, listed) = walk(&sample_tree(), "root", 1);
    assert_eq!(files, Ok(vec!["root/a.txt".to_string(), "root/b.txt".to_string()]));
    assert_eq!(listed, vec!["root"]);
}

#[test]
fn depth_two_goes_one_level_further() {
    let (files, listed) = walk(&sample_tree(), "root", 2);
    assert_eq!(
        files,
        Ok(vec![
            "root/a.txt".to_string(),
            "root/sub/c.txt".to_string(),
            "root/sub/d.txt".to_string(),
            "root/b.txt".to_string(),
        ])
    );
    assert_eq!(listed, vec!["root", "root/sub", "root/empty"]);
}

#[test]
fn file_at_exactly_the_depth_is_found_and_one_deeper_is_not() {
    let (files, _) = walk(&sample_tree(), "root", 3);
    let files = files.unwrap();
    assert!(files.contains(&"root/sub/deep/e.txt".to_string()));
    assert!(!files.contains(&"root/sub/deep/deeper/f.txt".to_string()));
    let (files, _) = walk(&sample_tree(), "root", 4);
    let files = files.unwrap();
    assert!(files.contains(&"root/sub/deep/deeper/f.txt".to_string()));
}

#[test]
fn large_budget_finds_every_file_in_walk_order() {
    let (files, listed) = walk(&sample_tree(), "root", 1000);
    assert_eq!(
        files,
        Ok(vec![
            "root/a.txt".to_string(),
            "root/sub/c.txt".to_string(),
            "root/sub/deep/e.txt".to_string(),
            "root/sub/deep/deeper/f.txt".to_string(),
            "root/sub/d.txt".to_string(),
            "root/b.txt".to_string(),
        ])
    );
    assert_eq!(
        listed,
        vec!["root", "root/sub", "root/sub/deep", "root/sub/deep/deeper", "root/empty"]
    );
}

#[test]
fn no_budget_lists_nothing() {
    let (files, listed) = walk(&sample_tree(), "root", 0);
    assert_eq!(files, Ok(Vec::new()));
    assert!(listed.is_empty());
    let (files, listed) = walk(&sample_tree(), "root", -5);
    assert_eq!(files, Ok(Vec::new()));
    assert!(listed.is_empty());
    let (files, listed) = walk(&sample_tree(), "root", i16::MIN);
    assert_eq!(files, Ok(Vec::new()));
    assert!(listed.is_empty());
}

#[test]
fn largest_budget_is_accepted() {
    let (files, _) = walk(&sample_tree(), "root", i16::MAX);
    assert_eq!(files.unwrap().len(), 6);
}

#[test]
fn entries_that_are_neither_file_nor_directory_are_passed_over() {
    let tree: Tree = vec![(
        "r",
        vec![("r/socket", EntryKind::Other), ("r/link-to-dir", EntryKind::Other)],
    )];
    let (files, listed) = walk(&tree, "r", 10);
    assert_eq!(files, Ok(Vec::new()));
    assert_eq!(listed, vec!["r"]);
}

#[test]
fn unreadable_root_fails_the_walk() {
    let tree: Tree = Vec::new();
    let (files, listed) = walk(&tree, "nowhere", 3);
    assert_eq!(files, Err(CompareError::Traversal { path: "nowhere".to_string() }));
    assert_eq!(listed, vec!["nowhere"]);
}

#[test]
fn unreadable_directory_fails_the_walk_and_keeps_nothing() {
    let tree: Tree = vec![
        (
            "r",
            vec![
                ("r/a", EntryKind::File),
                ("r/locked", EntryKind::Directory),
                ("r/b", EntryKind::File),
                ("r/later", EntryKind::Directory),
            ],
        ),
        ("r/later", vec![]),
    ];
    let (files, listed) = walk(&tree, "r", 5);
    assert_eq!(files, Err(CompareError::Traversal { path: "r/locked".to_string() }));
    assert_eq!(listed, vec!["r", "r/locked"]);
}

#[test]
fn unreadable_directory_beyond_the_budget_is_never_asked_for() {
    let tree: Tree =
        vec![("r", vec![("r/a", EntryKind::File), ("r/locked", EntryKind::Directory)])];
    let (files, listed) = walk(&tree, "r", 1);
    assert_eq!(files, Ok(vec!["r/a".to_string()]));
    assert_eq!(listed, vec!["r"]);
}

#[test]
fn asking_again_names_the_same_directory() {
    let mut walker = Walker::new("r".to_string(), 2);
    assert_eq!(walker.next_directory(), Some("r".to_string()));
    assert_eq!(walker.next_directory(), Some("r".to_string()));
    walker.supply(vec![DirEntry { path: "r/d".to_string(), kind: EntryKind::Directory }]);
    assert_eq!(walker.next_directory(), Some("r/d".to_string()));
    assert_eq!(walker.next_directory(), Some("r/d".to_string()));
    walker.supply(vec![DirEntry { path: "r/d/f".to_string(), kind: EntryKind::File }]);
    assert_eq!(walker.next_directory(), None);
    assert_eq!(walker.next_directory(), None);
    assert_eq!(walker.finish(), Ok(vec!["r/d/f".to_string()]));
}

#[test]
fn listing_that_was_not_asked_for_is_dropped() {
    let mut walker = Walker::new("r".to_string(), 0);
    walker.supply(vec![DirEntry { path: "r/f".to_string(), kind: EntryKind::File }]);
    walker.fail();
    assert_eq!(walker.next_directory(), None);
    assert_eq!(walker.finish(), Ok(Vec::new()));
}

#[test]
fn nothing_goes_on_after_a_failure() {
    let mut walker = Walker::new("r".to_string(), 3);
    assert_eq!(walker.next_directory(), Some("r".to_string()));
    walker.supply(vec![
        DirEntry { path: "r/one".to_string(), kind: EntryKind::Directory },
        DirEntry { path: "r/two".to_string(), kind: EntryKind::Directory },
    ]);
    assert_eq!(walker.next_directory(), Some("r/one".to_string()));
    walker.fail();
    assert_eq!(walker.next_directory(), None);
    walker.supply(vec![DirEntry { path: "r/one/f".to_string(), kind: EntryKind::File }]);
    assert_eq!(walker.next_directory(), None);
    assert_eq!(walker.finish(), Err(CompareError::Traversal { path: "r/one".to_string() }));
}
