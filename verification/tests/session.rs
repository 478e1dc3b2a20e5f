use rutree2::classify::EntryFacts;
use rutree2::classify::Metadata;
use rutree2::entry::FsEntry;
use rutree2::entry::Listing;
use rutree2::entry::TreeError;
use rutree2::session::Action;
use rutree2::session::Command;
use rutree2::session::Key;
use rutree2::session::Session;

fn entry(name: &str, is_dir: bool, listing: Listing) -> FsEntry {
    FsEntry {
        name: name.to_string(),
        facts: EntryFacts { is_symlink: false, metadata: Some(Metadata { is_dir, posix: None }) },
        link_target: None,
        listing,
    }
}

fn file(name: &str) -> FsEntry {
    entry(name, false, Listing::Entries(vec![]))
}

fn dir(name: &str, entries: Vec<FsEntry>) -> FsEntry {
    entry(name, true, Listing::Entries(entries))
}

fn sample() -> FsEntry {
    dir("root", vec![dir("a", vec![file("1"), file("2")]), file("b"), dir("c", vec![])])
}

fn labels(session: &Session) -> Vec<String> {
    session.rows().iter().map(|r| r.label()).collect()
}

fn press(session: Session, keys: &[Key]) -> Session {
    let mut session = session;
    for key in keys {
        let (next, action) = session.step(*key);
        assert_eq!(action, Action::Continue);
        session = next;
    }
    session
}

#[test]
fn keys_and_their_commands() {
    assert_eq!(Key::Char('q').command(), Command::Quit);
    assert_eq!(Key::Char('Q').command(), Command::Nothing);
    assert_eq!(Key::Char('x').command(), Command::Nothing);
    assert_eq!(Key::Down.command(), Command::MoveDown);
    assert_eq!(Key::Up.command(), Command::MoveUp);
    assert_eq!(Key::Right.command(), Command::Expand);
    assert_eq!(Key::Enter.command(), Command::Expand);
    assert_eq!(Key::Left.command(), Command::Collapse);
    assert_eq!(Key::Other.command(), Command::Nothing);
}

#[test]
fn a_session_starts_on_the_root() {
    let session = Session::start(&sample(), false, None).unwrap();
    assert_eq!(session.selected(), 0);
    assert_eq!(labels(&session), vec!["root/ [-]", "├── a/ [+]", "├── b", "└── c/ [+]"]);
    assert!(session.tree().expanded);
}

#[test]
fn a_session_fails_on_an_unreadable_directory() {
    let root = dir("root", vec![entry("locked", true, Listing::Unreadable)]);
    assert_eq!(Session::start(&root, false, None).err(), Some(TreeError::DirectoryUnreadable));
    assert!(Session::start(&root, false, Some(1)).is_ok());
}

#[test]
fn q_leaves_and_changes_nothing() {
    let session = press(Session::start(&sample(), false, None).unwrap(), &[Key::Down]);
    let (session, action) = session.step(Key::Char('q'));
    assert_eq!(action, Action::Exit);
    assert_eq!(session.selected(), 1);
    assert_eq!(labels(&session).len(), 4);
}

#[test]
fn the_cursor_stops_at_both_ends() {
    let session = Session::start(&sample(), false, None).unwrap();
    let session = press(session, &[Key::Up]);
    assert_eq!(session.selected(), 0);
    let session = press(session, &[Key::Down, Key::Down]);
    assert_eq!(session.selected(), 2);
    let session = press(session, &[Key::Down, Key::Down, Key::Down]);
    assert_eq!(session.selected(), 3);
    let session = press(session, &[Key::Up]);
    assert_eq!(session.selected(), 2);
}

#[test]
fn right_and_enter_open_the_directory_under_the_cursor() {
    let session = Session::start(&sample(), false, None).unwrap();
    let session = press(session, &[Key::Down, Key::Right]);
    assert_eq!(session.selected(), 1);
    assert_eq!(
        labels(&session),
        vec!["root/ [-]", "├── a/ [-]", "│   ├── 1", "│   └── 2", "├── b", "└── c/ [+]"]
    );
    let session = press(session, &[Key::Down, Key::Down, Key::Down, Key::Down, Key::Enter]);
    assert_eq!(session.selected(), 5);
    assert_eq!(labels(&session)[5], "└── c/ [-]");
}

#[test]
fn left_closes_the_directory_under_the_cursor() {
    let session = Session::start(&sample(), false, None).unwrap();
    let session = press(session, &[Key::Down, Key::Right, Key::Left]);
    assert_eq!(session.selected(), 1);
    assert_eq!(labels(&session), vec!["root/ [-]", "├── a/ [+]", "├── b", "└── c/ [+]"]);
}

#[test]
fn keys_on_a_file_do_nothing() {
    let session = Session::start(&sample(), false, None).unwrap();
    let session = press(session, &[Key::Down, Key::Down]);
    let before = labels(&session);
    let session = press(session, &[Key::Right, Key::Enter, Key::Left, Key::Other, Key::Char('x')]);
    assert_eq!(labels(&session), before);
    assert_eq!(session.selected(), 2);
}

#[test]
fn opening_what_is_open_and_closing_what_is_closed_do_nothing() {
    let session = Session::start(&sample(), false, None).unwrap();
    let before = labels(&session);
    // The root is open.
    let session = press(session, &[Key::Right]);
    assert_eq!(labels(&session), before);
    // `a` is closed.
    let session = press(session, &[Key::Down, Key::Left]);
    assert_eq!(labels(&session), before);
}

#[test]
fn closing_the_root_keeps_the_cursor_on_it() {
    let session = Session::start(&sample(), false, None).unwrap();
    let session = press(session, &[Key::Left]);
    assert_eq!(labels(&session), vec!["root/ [+]"]);
    assert_eq!(session.selected(), 0);
    let session = press(session, &[Key::Down]);
    assert_eq!(session.selected(), 0);
    let session = press(session, &[Key::Enter]);
    assert_eq!(labels(&session).len(), 4);
}

#[test]
fn open_then_close_restores_the_rows() {
    let session = Session::start(&sample(), false, None).unwrap();
    let session = press(session, &[Key::Down]);
    let before = labels(&session);
    let session = press(session, &[Key::Right, Key::Left]);
    assert_eq!(labels(&session), before);
    assert_eq!(session.selected(), 1);
}

#[test]
fn the_cursor_keeps_its_number_when_a_directory_opens() {
    let session = Session::start(&sample(), false, None).unwrap();
    let session = press(session, &[Key::Down, Key::Down, Key::Down, Key::Right]);
    assert_eq!(session.selected(), 3);
    assert_eq!(labels(&session)[3], "└── c/ [-]");
    let session = press(session, &[Key::Up, Key::Up, Key::Enter]);
    assert_eq!(session.selected(), 1);
    assert_eq!(labels(&session)[1], "├── a/ [-]");
    assert_eq!(session.rows()[1].path, vec![0]);
    let session = press(session, &[Key::Left]);
    assert_eq!(session.selected(), 1);
    assert_eq!(session.rows()[1].path, vec![0]);
}
