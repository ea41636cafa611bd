use mshdbg::filetree::{DirFetchState, FileTreeEntry, FileTreeState};
use mshdbg::path::TreePath;

fn node_path(parts: &[&str]) -> TreePath {
    TreePath::new(parts.iter().map(|part| part.to_string()).collect())
}

fn file_at(parts: &[&str]) -> FileTreeEntry {
    FileTreeEntry::File { name: parts[parts.len() - 1].to_string(), path: node_path(parts) }
}

fn unlisted_dir_at(parts: &[&str]) -> FileTreeEntry {
    FileTreeEntry::Dir {
        name: parts[parts.len() - 1].to_string(),
        path: node_path(parts),
        fetch_state: DirFetchState::NotStarted,
        toggled: false,
        next: None,
    }
}

fn listed_dir_at(parts: &[&str], toggled: bool, entries: Vec<FileTreeEntry>) -> FileTreeEntry {
    FileTreeEntry::Dir {
        name: parts[parts.len() - 1].to_string(),
        path: node_path(parts),
        fetch_state: DirFetchState::Complete,
        toggled,
        next: Some(Box::new(FileTreeState { root: node_path(parts), entries })),
    }
}

fn describe_entries(entries: &Vec<FileTreeEntry>, out: &mut String) {
    out.push('[');
    for entry in entries {
        match entry {
            FileTreeEntry::File { name, path } => {
                out.push_str(&format!("file {:?} at {:?};", name, path.components));
            }
            FileTreeEntry::Dir { name, path, fetch_state, toggled, next } => {
                out.push_str(&format!(
                    "dir {:?} at {:?} {:?} {:?} ",
                    name, path.components, fetch_state, toggled
                ));
                match next {
                    Some(child) => describe_node(child, out),
                    None => out.push_str("unlisted"),
                }
                out.push(';');
            }
        }
    }
    out.push(']');
}

fn describe_node(tree: &FileTreeState, out: &mut String) {
    out.push_str(&format!("node {:?} ", tree.root.components));
    describe_entries(&tree.entries, out);
}

fn describe(tree: &FileTreeState) -> String {
    let mut out = String::new();
    describe_node(tree, &mut out);
    out
}

fn three_levels() -> FileTreeState {
    FileTreeState {
        root: node_path(&["/", "A"]),
        entries: vec![
            listed_dir_at(
                &["/", "A", "B"],
                true,
                vec![unlisted_dir_at(&["/", "A", "B", "C"]), file_at(&["/", "A", "B", "notes"])],
            ),
            unlisted_dir_at(&["/", "A", "other"]),
            file_at(&["/", "A", "readme"]),
        ],
    }
}

#[test]
fn a_listing_of_the_root_replaces_the_entries() {
    let mut tree = FileTreeState {
        root: node_path(&["/", "r"]),
        entries: vec![unlisted_dir_at(&["/", "r", "old"]), file_at(&["/", "r", "gone"])],
    };
    tree.insert_entries_at_path(
        node_path(&["/", "r"]),
        vec![unlisted_dir_at(&["/", "r", "dirA"]), file_at(&["/", "r", "fileB"])],
    );
    let expected = FileTreeState {
        root: node_path(&["/", "r"]),
        entries: vec![unlisted_dir_at(&["/", "r", "dirA"]), file_at(&["/", "r", "fileB"])],
    };
    assert_eq!(describe(&tree), describe(&expected));
    assert_eq!(tree.entries.len(), 2);
}

#[test]
fn an_empty_listing_of_the_root_empties_the_tree() {
    let mut tree = three_levels();
    tree.insert_entries_at_path(node_path(&["/", "A"]), vec![]);
    assert_eq!(tree.root, node_path(&["/", "A"]));
    assert!(tree.entries.is_empty());
}

#[test]
fn a_listing_goes_to_the_directory_entry_at_its_path() {
    let mut tree = FileTreeState {
        root: node_path(&["/", "r"]),
        entries: vec![
            FileTreeEntry::Dir {
                name: "dirA".to_string(),
                path: node_path(&["/", "r", "dirA"]),
                fetch_state: DirFetchState::Pending,
                toggled: true,
                next: None,
            },
            file_at(&["/", "r", "fileB"]),
        ],
    };
    tree.insert_entries_at_path(
        node_path(&["/", "r", "dirA"]),
        vec![file_at(&["/", "r", "dirA", "fileC"])],
    );
    let expected = FileTreeState {
        root: node_path(&["/", "r"]),
        entries: vec![
            listed_dir_at(&["/", "r", "dirA"], true, vec![file_at(&["/", "r", "dirA", "fileC"])]),
            file_at(&["/", "r", "fileB"]),
        ],
    };
    assert_eq!(describe(&tree), describe(&expected));
}

#[test]
fn a_file_at_the_path_of_a_listing_does_not_take_it() {
    let mut tree = FileTreeState {
        root: node_path(&["/", "r"]),
        entries: vec![file_at(&["/", "r", "thing"])],
    };
    let before = describe(&tree);
    tree.insert_entries_at_path(
        node_path(&["/", "r", "thing"]),
        vec![file_at(&["/", "r", "thing", "inner"])],
    );
    assert_eq!(describe(&tree), before);
}

#[test]
fn a_deep_listing_leaves_the_levels_above_untouched() {
    let mut tree = three_levels();
    tree.insert_entries_at_path(
        node_path(&["/", "A", "B", "C"]),
        vec![file_at(&["/", "A", "B", "C", "x"]), file_at(&["/", "A", "B", "C", "y"])],
    );
    let expected = FileTreeState {
        root: node_path(&["/", "A"]),
        entries: vec![
            listed_dir_at(
                &["/", "A", "B"],
                true,
                vec![
                    listed_dir_at(
                        &["/", "A", "B", "C"],
                        false,
                        vec![
                            file_at(&["/", "A", "B", "C", "x"]),
                            file_at(&["/", "A", "B", "C", "y"]),
                        ],
                    ),
                    file_at(&["/", "A", "B", "notes"]),
                ],
            ),
            unlisted_dir_at(&["/", "A", "other"]),
            file_at(&["/", "A", "readme"]),
        ],
    };
    assert_eq!(describe(&tree), describe(&expected));
}

#[test]
fn applying_a_listing_twice_is_applying_it_once() {
    let targets: [&[&str]; 5] = [
        &["/", "A"],
        &["/", "A", "B"],
        &["/", "A", "B", "C"],
        &["/", "A", "other"],
        &["/", "A", "nowhere"],
    ];
    for target in targets {
        let listing = |under: &[&str]| {
            let mut first = under.to_vec();
            first.push("x");
            let mut second = under.to_vec();
            second.push("y");
            vec![unlisted_dir_at(&first), file_at(&second)]
        };
        let mut once = three_levels();
        once.insert_entries_at_path(node_path(target), listing(target));
        let mut twice = three_levels();
        twice.insert_entries_at_path(node_path(target), listing(target));
        twice.insert_entries_at_path(node_path(target), listing(target));
        assert_eq!(describe(&twice), describe(&once));
    }
}

#[test]
fn a_listing_for_a_path_that_is_nowhere_in_the_tree_is_dropped() {
    let targets: [&[&str]; 5] = [
        &["/", "elsewhere"],
        &["/", "A", "missing"],
        &["/", "A", "B", "missing"],
        &["/", "A", "other", "inner"],
        &["/", "A", "B", "C", "inner"],
    ];
    for target in targets {
        let mut tree = three_levels();
        tree.insert_entries_at_path(node_path(target), vec![file_at(&["/", "stray"])]);
        assert_eq!(describe(&tree), describe(&three_levels()));
    }
}

#[test]
fn a_listing_is_taken_whatever_the_state_of_the_directory() {
    for fetch_state in [DirFetchState::NotStarted, DirFetchState::Pending, DirFetchState::Complete] {
        let mut tree = FileTreeState {
            root: node_path(&["/", "r"]),
            entries: vec![FileTreeEntry::Dir {
                name: "dirA".to_string(),
                path: node_path(&["/", "r", "dirA"]),
                fetch_state,
                toggled: false,
                next: None,
            }],
        };
        tree.insert_entries_at_path(node_path(&["/", "r", "dirA"]), vec![]);
        let expected = FileTreeState {
            root: node_path(&["/", "r"]),
            entries: vec![listed_dir_at(&["/", "r", "dirA"], false, vec![])],
        };
        assert_eq!(describe(&tree), describe(&expected));
    }
}

#[test]
fn a_new_listing_of_a_listed_directory_replaces_its_children() {
    let mut tree = three_levels();
    tree.insert_entries_at_path(
        node_path(&["/", "A", "B"]),
        vec![file_at(&["/", "A", "B", "fresh"])],
    );
    let expected = FileTreeState {
        root: node_path(&["/", "A"]),
        entries: vec![
            listed_dir_at(&["/", "A", "B"], true, vec![file_at(&["/", "A", "B", "fresh"])]),
            unlisted_dir_at(&["/", "A", "other"]),
            file_at(&["/", "A", "readme"]),
        ],
    };
    assert_eq!(describe(&tree), describe(&expected));
}

#[test]
fn an_entry_at_the_path_takes_the_listing_before_any_node_above_it() {
    let mut tree = FileTreeState {
        root: node_path(&["/", "r"]),
        entries: vec![
            listed_dir_at(&["/", "r", "a"], true, vec![unlisted_dir_at(&["/", "r", "a", "b"])]),
            unlisted_dir_at(&["/", "r", "a", "b"]),
        ],
    };
    tree.insert_entries_at_path(
        node_path(&["/", "r", "a", "b"]),
        vec![file_at(&["/", "r", "a", "b", "x"])],
    );
    let expected = FileTreeState {
        root: node_path(&["/", "r"]),
        entries: vec![
            listed_dir_at(&["/", "r", "a"], true, vec![unlisted_dir_at(&["/", "r", "a", "b"])]),
            listed_dir_at(&["/", "r", "a", "b"], false, vec![file_at(&["/", "r", "a", "b", "x"])]),
        ],
    };
    assert_eq!(describe(&tree), describe(&expected));
}

#[test]
fn a_listing_goes_down_by_the_root_of_the_node_of_children() {
    let mut tree = FileTreeState {
        root: node_path(&["/", "r"]),
        entries: vec![
            unlisted_dir_at(&["/", "r", "plain"]),
            FileTreeEntry::Dir {
                name: "link".to_string(),
                path: node_path(&["/", "r", "link"]),
                fetch_state: DirFetchState::Complete,
                toggled: true,
                next: Some(Box::new(FileTreeState {
                    root: node_path(&["/", "target"]),
                    entries: vec![unlisted_dir_at(&["/", "target", "sub"])],
                })),
            },
        ],
    };
    tree.insert_entries_at_path(
        node_path(&["/", "target", "sub"]),
        vec![file_at(&["/", "target", "sub", "x"])],
    );
    match &tree.entries[1] {
        FileTreeEntry::Dir { next: Some(child), .. } => match &child.entries[0] {
            FileTreeEntry::Dir { fetch_state, next: Some(listed), .. } => {
                assert_eq!(*fetch_state, DirFetchState::Complete);
                assert_eq!(listed.root, node_path(&["/", "target", "sub"]));
                assert_eq!(listed.entries.len(), 1);
            }
            _ => panic!("the directory below was expected to be listed"),
        },
        _ => panic!("the node of children was lost"),
    }
    assert!(matches!(tree.entries[0], FileTreeEntry::Dir { next: None, .. }));
}
