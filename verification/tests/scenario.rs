use mshdbg::app::App;
use mshdbg::filetree::{DirFetchState, FileTreeEntry, FileTreeState};
use mshdbg::listing::{listing_message, load_entries_at_path, DirChild};
use mshdbg::path::TreePath;
use mshdbg::rows::{fs_tree, left_padding, TreeRow};
use mshdbg::state::Message;

fn path_to(parts: &[&str]) -> TreePath {
    TreePath::new(parts.iter().map(|part| part.to_string()).collect())
}

fn listed(parts: &[&str], is_dir: bool) -> DirChild {
    DirChild { name: parts[parts.len() - 1].to_string(), path: path_to(parts), is_dir }
}

fn shown(rows: &Vec<TreeRow>) -> Vec<(String, u16)> {
    rows.iter().map(|row| (row.name.clone(), row.depth)).collect()
}

fn row(name: &str, depth: u16) -> (String, u16) {
    (name.to_string(), depth)
}

#[test]
fn the_app_starts_with_an_empty_tree_and_asks_for_its_root() {
    let (app, request) = App::new(path_to(&["/", "r"]));
    assert_eq!(app.file_tree.root, path_to(&["/", "r"]));
    assert!(app.file_tree.entries.is_empty());
    assert_eq!(request, path_to(&["/", "r"]));
    assert!(fs_tree(&app.file_tree, 1).is_empty());
}

#[test]
fn a_listing_makes_fresh_entries_in_the_order_shown() {
    let entries = load_entries_at_path(vec![
        listed(&["/", "r", "zeta.txt"], false),
        listed(&["/", "r", "src"], true),
        listed(&["/", "r", "Alpha.txt"], false),
        listed(&["/", "r", "Docs"], true),
    ]);
    let names: Vec<String> = entries.iter().map(|entry| entry.file_name()).collect();
    assert_eq!(names, vec!["Docs", "src", "Alpha.txt", "zeta.txt"]);
    match &entries[0] {
        FileTreeEntry::Dir { name, path, fetch_state, toggled, next } => {
            assert_eq!(name, "Docs");
            assert_eq!(*path, path_to(&["/", "r", "Docs"]));
            assert_eq!(*fetch_state, DirFetchState::NotStarted);
            assert!(!*toggled);
            assert!(next.is_none());
        }
        FileTreeEntry::File { .. } => panic!("a directory was expected"),
    }
    match &entries[2] {
        FileTreeEntry::File { name, path } => {
            assert_eq!(name, "Alpha.txt");
            assert_eq!(*path, path_to(&["/", "r", "Alpha.txt"]));
        }
        FileTreeEntry::Dir { .. } => panic!("a file was expected"),
    }
    assert!(load_entries_at_path(vec![]).is_empty());
}

#[test]
fn a_finished_listing_reports_the_sorted_entries_of_its_directory() {
    let message = listing_message(
        path_to(&["/", "r", "dirA"]),
        Some(vec![
            listed(&["/", "r", "dirA", "b"], false),
            listed(&["/", "r", "dirA", "sub"], true),
            listed(&["/", "r", "dirA", "A"], false),
        ]),
    );
    match message {
        Some(Message::PushFileTree { at_path, entries }) => {
            assert_eq!(at_path, path_to(&["/", "r", "dirA"]));
            let names: Vec<String> = entries.iter().map(|entry| entry.file_name()).collect();
            assert_eq!(names, vec!["sub", "A", "b"]);
        }
        None => panic!("a message was expected"),
    }
}

#[test]
fn a_failed_listing_reports_nothing_and_the_directory_stays_pending() {
    let (mut app, _) = App::new(path_to(&["/", "r"]));
    app.update_state(Message::PushFileTree {
        at_path: path_to(&["/", "r"]),
        entries: load_entries_at_path(vec![listed(&["/", "r", "dirA"], true)]),
    });
    let request = app.file_tree.entries[0].on_click();
    assert_eq!(request, Some(path_to(&["/", "r", "dirA"])));

    let message = listing_message(path_to(&["/", "r", "dirA"]), None);
    assert!(message.is_none());
    app.update(message.into_iter().collect());

    match &app.file_tree.entries[0] {
        FileTreeEntry::Dir { fetch_state, toggled, next, .. } => {
            assert_eq!(*fetch_state, DirFetchState::Pending);
            assert!(*toggled);
            assert!(next.is_none());
        }
        FileTreeEntry::File { .. } => panic!("a directory was expected"),
    }
    assert_eq!(app.file_tree.entries[0].on_click(), None);
    assert!(!app.file_tree.entries[0].should_show_children());
}

#[test]
fn expanding_a_directory_from_click_to_rows() {
    let (mut app, request) = App::new(path_to(&["/", "r"]));
    let root_listing = listing_message(
        request,
        Some(vec![listed(&["/", "r", "fileB"], false), listed(&["/", "r", "dirA"], true)]),
    );
    app.update(root_listing.into_iter().collect());
    assert_eq!(shown(&fs_tree(&app.file_tree, 1)), vec![row("dirA", 1), row("fileB", 1)]);

    let request = app.file_tree.entries[0].on_click();
    assert_eq!(request, Some(path_to(&["/", "r", "dirA"])));
    match &app.file_tree.entries[0] {
        FileTreeEntry::Dir { fetch_state, toggled, next, .. } => {
            assert_eq!(*fetch_state, DirFetchState::Pending);
            assert!(*toggled);
            assert!(next.is_none());
        }
        FileTreeEntry::File { .. } => panic!("a directory was expected"),
    }
    assert_eq!(shown(&fs_tree(&app.file_tree, 1)), vec![row("dirA", 1), row("fileB", 1)]);

    let finished = listing_message(
        path_to(&["/", "r", "dirA"]),
        Some(vec![listed(&["/", "r", "dirA", "fileC"], false)]),
    );
    app.update(finished.into_iter().collect());

    match &app.file_tree.entries[0] {
        FileTreeEntry::Dir { fetch_state, toggled, next: Some(children), .. } => {
            assert_eq!(*fetch_state, DirFetchState::Complete);
            assert!(*toggled);
            assert_eq!(children.root, path_to(&["/", "r", "dirA"]));
            assert_eq!(children.entries.len(), 1);
            assert_eq!(children.entries[0].file_name(), "fileC");
            assert!(matches!(children.entries[0], FileTreeEntry::File { .. }));
        }
        _ => panic!("a listed directory was expected"),
    }
    assert!(app.file_tree.entries[0].should_show_children());
    assert_eq!(
        shown(&fs_tree(&app.file_tree, 1)),
        vec![row("dirA", 1), row("fileC", 2), row("fileB", 1)]
    );

    assert_eq!(app.file_tree.entries[0].on_click(), None);
    assert!(!app.file_tree.entries[0].should_show_children());
    assert_eq!(shown(&fs_tree(&app.file_tree, 1)), vec![row("dirA", 1), row("fileB", 1)]);
}

#[test]
fn messages_are_applied_in_the_order_of_their_arrival() {
    let root_listing = || Message::PushFileTree {
        at_path: path_to(&["/", "r"]),
        entries: load_entries_at_path(vec![listed(&["/", "r", "dirA"], true)]),
    };
    let child_listing = || Message::PushFileTree {
        at_path: path_to(&["/", "r", "dirA"]),
        entries: load_entries_at_path(vec![listed(&["/", "r", "dirA", "fileC"], false)]),
    };

    let (mut app, _) = App::new(path_to(&["/", "r"]));
    app.update(vec![root_listing(), child_listing()]);
    match &app.file_tree.entries[0] {
        FileTreeEntry::Dir { fetch_state, next: Some(children), .. } => {
            assert_eq!(*fetch_state, DirFetchState::Complete);
            assert_eq!(children.entries.len(), 1);
        }
        _ => panic!("a listed directory was expected"),
    }

    let (mut app, _) = App::new(path_to(&["/", "r"]));
    app.update(vec![child_listing(), root_listing()]);
    match &app.file_tree.entries[0] {
        FileTreeEntry::Dir { fetch_state, next, .. } => {
            assert_eq!(*fetch_state, DirFetchState::NotStarted);
            assert!(next.is_none());
        }
        FileTreeEntry::File { .. } => panic!("a directory was expected"),
    }

    let (mut app, _) = App::new(path_to(&["/", "r"]));
    app.update(vec![]);
    assert!(app.file_tree.entries.is_empty());
}

#[test]
fn children_are_shown_only_below_an_unfolded_directory_that_has_some() {
    let with = |toggled: bool, next: Option<Vec<FileTreeEntry>>| FileTreeEntry::Dir {
        name: "dirA".to_string(),
        path: path_to(&["/", "r", "dirA"]),
        fetch_state: DirFetchState::Complete,
        toggled,
        next: next.map(|entries| {
            Box::new(FileTreeState { root: path_to(&["/", "r", "dirA"]), entries })
        }),
    };
    let child = || FileTreeEntry::File {
        name: "fileC".to_string(),
        path: path_to(&["/", "r", "dirA", "fileC"]),
    };
    assert!(with(true, Some(vec![child()])).should_show_children());
    assert!(!with(false, Some(vec![child()])).should_show_children());
    assert!(!with(true, Some(vec![])).should_show_children());
    assert!(!with(true, None).should_show_children());
    assert!(!child().should_show_children());
}

#[test]
fn rows_go_depth_first_and_one_deeper_at_each_level() {
    let file = |parts: &[&str]| FileTreeEntry::File {
        name: parts[parts.len() - 1].to_string(),
        path: path_to(parts),
    };
    let dir = |parts: &[&str], toggled: bool, entries: Vec<FileTreeEntry>| FileTreeEntry::Dir {
        name: parts[parts.len() - 1].to_string(),
        path: path_to(parts),
        fetch_state: DirFetchState::Complete,
        toggled,
        next: Some(Box::new(FileTreeState { root: path_to(parts), entries })),
    };
    let tree = FileTreeState {
        root: path_to(&["/", "r"]),
        entries: vec![
            dir(
                &["/", "r", "a"],
                true,
                vec![
                    dir(&["/", "r", "a", "b"], true, vec![file(&["/", "r", "a", "b", "c"])]),
                    dir(&["/", "r", "a", "folded"], false, vec![file(&["/", "r", "a", "folded", "h"])]),
                    file(&["/", "r", "a", "d"]),
                ],
            ),
            dir(&["/", "r", "empty"], true, vec![]),
            file(&["/", "r", "z"]),
        ],
    };
    assert_eq!(
        shown(&fs_tree(&tree, 1)),
        vec![
            row("a", 1),
            row("b", 2),
            row("c", 3),
            row("folded", 2),
            row("d", 2),
            row("empty", 1),
            row("z", 1),
        ]
    );
    assert_eq!(shown(&fs_tree(&tree, 0))[2], row("c", 2));
}

#[test]
fn rows_are_set_in_by_twenty_for_each_level() {
    assert_eq!(left_padding(0), 0);
    assert_eq!(left_padding(1), 20);
    assert_eq!(left_padding(3), 60);
    assert_eq!(left_padding(u16::MAX), 1_310_700);
}

#[test]
fn a_root_listing_installs_the_sorted_entries_in_place_of_the_old() {
    let (mut app, request) = App::new(path_to(&["/", "r"]));
    let first = listing_message(
        request,
        Some(vec![listed(&["/", "r", "old"], false), listed(&["/", "r", "older"], true)]),
    );
    app.update(first.into_iter().collect());
    assert_eq!(app.file_tree.entries.len(), 2);

    let second = listing_message(
        path_to(&["/", "r"]),
        Some(vec![
            listed(&["/", "r", "y"], false),
            listed(&["/", "r", "X"], false),
            listed(&["/", "r", "sub"], true),
        ]),
    );
    app.update(second.into_iter().collect());
    let names: Vec<String> = app.file_tree.entries.iter().map(|entry| entry.file_name()).collect();
    assert_eq!(names, vec!["sub", "X", "y"]);
    assert_eq!(app.file_tree.root, path_to(&["/", "r"]));
}

#[test]
fn a_deep_listing_installs_the_sorted_entries_and_touches_nothing_above() {
    let (mut app, _) = App::new(path_to(&["/", "A"]));
    app.update(vec![
        Message::PushFileTree {
            at_path: path_to(&["/", "A"]),
            entries: load_entries_at_path(vec![
                listed(&["/", "A", "readme"], false),
                listed(&["/", "A", "B"], true),
            ]),
        },
        Message::PushFileTree {
            at_path: path_to(&["/", "A", "B"]),
            entries: load_entries_at_path(vec![
                listed(&["/", "A", "B", "notes"], false),
                listed(&["/", "A", "B", "C"], true),
            ]),
        },
    ]);
    let finished = listing_message(
        path_to(&["/", "A", "B", "C"]),
        Some(vec![listed(&["/", "A", "B", "C", "y"], false), listed(&["/", "A", "B", "C", "x"], false)]),
    );
    app.update(finished.into_iter().collect());

    let top: Vec<String> = app.file_tree.entries.iter().map(|entry| entry.file_name()).collect();
    assert_eq!(top, vec!["B", "readme"]);
    let b = match &app.file_tree.entries[0] {
        FileTreeEntry::Dir { next: Some(children), fetch_state, .. } => {
            assert_eq!(*fetch_state, DirFetchState::Complete);
            children
        }
        _ => panic!("B was expected to be listed"),
    };
    let middle: Vec<String> = b.entries.iter().map(|entry| entry.file_name()).collect();
    assert_eq!(middle, vec!["C", "notes"]);
    match &b.entries[0] {
        FileTreeEntry::Dir { next: Some(children), fetch_state, toggled, .. } => {
            assert_eq!(*fetch_state, DirFetchState::Complete);
            assert!(!*toggled);
            assert_eq!(children.root, path_to(&["/", "A", "B", "C"]));
            let bottom: Vec<String> =
                children.entries.iter().map(|entry| entry.file_name()).collect();
            assert_eq!(bottom, vec!["x", "y"]);
        }
        _ => panic!("C was expected to be listed"),
    }
}
