use rutree2::classify::EntryFacts;
use rutree2::entry::FsEntry;
use rutree2::entry::Listing;
use rutree2::scan::scan;

fn entries(names: &[&str]) -> Vec<FsEntry> {
    names
        .iter()
        .map(|n| FsEntry {
            name: n.to_string(),
            facts: EntryFacts { is_symlink: false, metadata: None },
            link_target: None,
            listing: Listing::Entries(vec![]),
        })
        .collect()
}

fn scanned(names: &[&str], show_hidden: bool) -> Vec<String> {
    let list = entries(names);
    scan(&list, show_hidden).into_iter().map(|i| list[i].name.clone()).collect()
}

#[test]
fn scan_sorts_by_name() {
    assert_eq!(scan(&entries(&["b.txt", "a", "c"]), false), vec![1, 0, 2]);
    assert_eq!(scanned(&["b.txt", "a", "c"], false), vec!["a", "b.txt", "c"]);
    assert_eq!(scanned(&["b", "B", "a", "A", "10", "9"], false), vec!["10", "9", "A", "B", "a", "b"]);
}

#[test]
fn scan_leaves_hidden_entries_out() {
    assert_eq!(scanned(&["b.txt", "a", ".hidden"], false), vec!["a", "b.txt"]);
    assert_eq!(scanned(&["b.txt", "a", ".hidden"], true), vec![".hidden", "a", "b.txt"]);
    assert_eq!(scan(&entries(&[".a", ".b"]), false), Vec::<usize>::new());
    assert_eq!(scan(&entries(&[".b", ".a"]), true), vec![1, 0]);
}

#[test]
fn scan_of_an_empty_listing() {
    assert_eq!(scan(&entries(&[]), false), Vec::<usize>::new());
    assert_eq!(scan(&entries(&[]), true), Vec::<usize>::new());
}

#[test]
fn scan_does_not_depend_on_the_read_order() {
    let expected = vec!["-y", ".x", "A", "a", "b", "é"];
    assert_eq!(scanned(&["a", "b", "A", ".x", "é", "-y"], true), expected);
    assert_eq!(scanned(&["é", "-y", ".x", "A", "b", "a"], true), expected);
    assert_eq!(scanned(&["b", "a", "é", "A", "-y", ".x"], true), expected);
}

#[test]
fn scan_keeps_the_read_order_of_equal_names() {
    assert_eq!(scan(&entries(&["b", "a", "b", "a"]), false), vec![1, 3, 0, 2]);
}

#[test]
fn hidden_off_is_hidden_on_without_the_hidden() {
    let names = ["m", ".z", "a", ".a", "z", "-", ".m"];
    let list = entries(&names);
    let all = scan(&list, true);
    let visible: Vec<usize> = all.into_iter().filter(|i| !names[*i].starts_with('.')).collect();
    assert_eq!(scan(&list, false), visible);
}
