use rutree2::classify::EntryFacts;
use rutree2::classify::Metadata;
use rutree2::entry::FsEntry;
use rutree2::entry::Listing;
use rutree2::entry::TreeError;
use rutree2::render::display_tree;
use rutree2::tree::TreeNode;

fn entry(name: &str, is_dir: bool, listing: Listing) -> FsEntry {
    FsEntry {
        name: name.to_string(),
        facts: EntryFacts { is_symlink: false, metadata: Some(Metadata { is_dir, posix: None }) },
        link_target: None,
        listing,
    }
}

fn file(name: &str) -> FsEntry {
    entry(name, false, Listing::Entries(vec![]))
}

fn dir(name: &str, entries: Vec<FsEntry>) -> FsEntry {
    entry(name, true, Listing::Entries(entries))
}

fn sample() -> FsEntry {
    dir(
        "root",
        vec![
            file("b.txt"),
            dir("a", vec![file("2"), dir("1", vec![file("deep")])]),
            file(".hidden"),
            dir("c", vec![file("x")]),
        ],
    )
}

fn lines(tree: &TreeNode) -> Vec<String> {
    tree.flatten().iter().map(|r| r.label()).collect()
}

#[test]
fn a_new_tree_shows_the_root_and_its_children() {
    let tree = TreeNode::from_entry(&sample(), false, None, 0).unwrap();
    assert_eq!(lines(&tree), vec!["root/ [-]", "├── a/ [+]", "├── b.txt", "└── c/ [+]"]);
    assert!(tree.expanded);
    assert!(tree.children.iter().all(|c| !c.expanded));
    assert!(tree.children.iter().all(|c| c.depth == 1));
    assert_eq!(tree.depth, 0);
}

#[test]
fn rows_know_their_nodes() {
    let mut tree = TreeNode::from_entry(&sample(), false, None, 0).unwrap();
    tree.expand(&vec![0]);
    let rows = tree.flatten();
    let paths: Vec<Vec<usize>> = rows.iter().map(|r| r.path.clone()).collect();
    assert_eq!(paths, vec![vec![], vec![0], vec![0, 0], vec![0, 1], vec![1], vec![2]]);
    let prefixes: Vec<&str> = rows.iter().map(|r| r.prefix.as_str()).collect();
    assert_eq!(prefixes, vec!["", "├── ", "│   ├── ", "│   └── ", "├── ", "└── "]);
    let names: Vec<&str> = rows.iter().map(|r| r.name.as_str()).collect();
    assert_eq!(names, vec!["root/", "a/", "1/", "2", "b.txt", "c/"]);
}

#[test]
fn expanding_shows_the_children() {
    let mut tree = TreeNode::from_entry(&sample(), false, None, 0).unwrap();
    tree.expand(&vec![0]);
    assert_eq!(
        lines(&tree),
        vec!["root/ [-]", "├── a/ [-]", "│   ├── 1/ [+]", "│   └── 2", "├── b.txt", "└── c/ [+]"]
    );
    tree.expand(&vec![0, 0]);
    tree.expand(&vec![2]);
    assert_eq!(
        lines(&tree),
        vec![
            "root/ [-]",
            "├── a/ [-]",
            "│   ├── 1/ [-]",
            "│   │   └── deep",
            "│   └── 2",
            "├── b.txt",
            "└── c/ [-]",
            "    └── x",
        ]
    );
}

#[test]
fn the_first_rows_of_a_new_tree_have_connectors() {
    let tree = TreeNode::from_entry(&sample(), false, None, 0).unwrap();
    let prefixes: Vec<String> = tree.flatten().iter().map(|r| r.prefix.clone()).collect();
    assert_eq!(prefixes, vec!["", "├── ", "├── ", "└── "]);
}

#[test]
fn expand_then_collapse_restores_the_rows() {
    let mut tree = TreeNode::from_entry(&sample(), true, None, 0).unwrap();
    let before = lines(&tree);
    for path in [vec![1], vec![3], vec![1, 0]] {
        tree.expand(&path);
        tree.collapse(&path);
        assert_eq!(lines(&tree), before);
    }
    tree.expand(&vec![1]);
    let opened = lines(&tree);
    assert_ne!(opened, before);
    tree.expand(&vec![1, 0]);
    tree.collapse(&vec![1, 0]);
    assert_eq!(lines(&tree), opened);
}

#[test]
fn collapsing_keeps_the_children() {
    let mut tree = TreeNode::from_entry(&sample(), false, None, 0).unwrap();
    tree.expand(&vec![0]);
    tree.expand(&vec![0, 0]);
    let open = lines(&tree);
    tree.collapse(&vec![0]);
    assert_eq!(lines(&tree), vec!["root/ [-]", "├── a/ [+]", "├── b.txt", "└── c/ [+]"]);
    assert_eq!(tree.children[0].children.len(), 2);
    assert!(tree.children[0].children[0].expanded);
    tree.expand(&vec![0]);
    assert_eq!(lines(&tree), open);
}

#[test]
fn collapsing_the_root_leaves_one_row() {
    let mut tree = TreeNode::from_entry(&sample(), false, None, 0).unwrap();
    tree.collapse(&vec![]);
    assert_eq!(lines(&tree), vec!["root/ [+]"]);
    tree.expand(&vec![]);
    assert_eq!(lines(&tree).len(), 4);
}

#[test]
fn files_and_missing_paths_cannot_be_opened() {
    let mut tree = TreeNode::from_entry(&sample(), false, None, 0).unwrap();
    let before = lines(&tree);
    tree.expand(&vec![1]);
    assert!(!tree.children[1].expanded);
    tree.expand(&vec![7]);
    tree.expand(&vec![0, 5, 1]);
    tree.collapse(&vec![1]);
    tree.collapse(&vec![9, 9]);
    assert_eq!(lines(&tree), before);
}

#[test]
fn the_tree_is_built_down_to_the_limit() {
    let chain = dir("root", vec![dir("x", vec![dir("y", vec![dir("z", vec![])])])]);
    let tree = TreeNode::from_entry(&chain, false, Some(1), 0).unwrap();
    assert_eq!(tree.children.len(), 1);
    assert_eq!(tree.children[0].name, "x");
    assert!(tree.children[0].is_dir);
    assert!(tree.children[0].children.is_empty());

    let tree = TreeNode::from_entry(&chain, false, Some(0), 0).unwrap();
    assert!(tree.children.is_empty());

    let tree = TreeNode::from_entry(&chain, false, None, 0).unwrap();
    assert_eq!(tree.children[0].children[0].children[0].name, "z");
    assert_eq!(tree.children[0].children[0].children[0].depth, 3);
}

#[test]
fn hidden_entries_are_left_out_of_the_tree() {
    let tree = TreeNode::from_entry(&sample(), false, None, 0).unwrap();
    let names: Vec<&str> = tree.children.iter().map(|c| c.name.as_str()).collect();
    assert_eq!(names, vec!["a", "b.txt", "c"]);
    let tree = TreeNode::from_entry(&sample(), true, None, 0).unwrap();
    let names: Vec<&str> = tree.children.iter().map(|c| c.name.as_str()).collect();
    assert_eq!(names, vec![".hidden", "a", "b.txt", "c"]);
}

#[test]
fn an_unreadable_directory_fails_the_tree() {
    let locked = entry("locked", true, Listing::Unreadable);
    let root = dir("root", vec![file("a"), locked]);
    assert_eq!(
        TreeNode::from_entry(&root, false, None, 0).unwrap_err(),
        TreeError::DirectoryUnreadable
    );
    // At the limit the directory is not listed, so it need not be readable.
    assert!(TreeNode::from_entry(&root, false, Some(1), 0).is_ok());
    let hidden = dir("root", vec![entry(".locked", true, Listing::Unreadable)]);
    assert!(TreeNode::from_entry(&hidden, false, None, 0).is_ok());
    assert!(TreeNode::from_entry(&hidden, true, None, 0).is_err());
}

#[test]
fn display_name_marks_directories() {
    let tree = TreeNode::from_entry(&sample(), false, None, 0).unwrap();
    assert_eq!(tree.display_name(), "root/");
    assert_eq!(tree.children[1].display_name(), "b.txt");
}

#[test]
fn a_file_as_root() {
    let tree = TreeNode::from_entry(&file("only"), false, None, 0).unwrap();
    assert_eq!(lines(&tree), vec!["only"]);
    assert!(tree.expanded);
}

#[test]
fn flatten_inner_appends_below_a_prefix() {
    let tree = TreeNode::from_entry(&sample(), false, None, 0).unwrap();
    let mut out = Vec::new();
    tree.children[2].flatten_inner("│   ", &mut out, false, &vec![2]);
    tree.children[2].flatten_inner("", &mut out, true, &vec![2]);
    let seen: Vec<(String, Vec<usize>)> = out.iter().map(|r| (r.label(), r.path.clone())).collect();
    assert_eq!(
        seen,
        vec![("│   ├── c/ [+]".to_string(), vec![2]), ("└── c/ [+]".to_string(), vec![2])]
    );
}

#[test]
fn both_views_use_the_same_glyphs() {
    let root = sample();
    for show_hidden in [false, true] {
        for limit in [None, Some(0), Some(1), Some(2)] {
            let mut tree = TreeNode::from_entry(&root, show_hidden, limit, 0).unwrap();
            // Open every directory.
            loop {
                let closed: Vec<Vec<usize>> = tree
                    .flatten()
                    .iter()
                    .filter(|r| r.is_dir && !r.expanded)
                    .map(|r| r.path.clone())
                    .collect();
                if closed.is_empty() {
                    break;
                }
                for path in closed {
                    tree.expand(&path);
                }
            }
            let rows: Vec<String> = tree.flatten().iter().map(|r| r.prefix.clone()).collect();
            let mut lines = Vec::new();
            assert!(display_tree(&root, show_hidden, limit, "", 0, &mut lines).is_ok());
            let glyphs: Vec<String> = lines.iter().map(|r| r.prefix.clone()).collect();
            assert_eq!(rows, glyphs);
        }
    }
}
