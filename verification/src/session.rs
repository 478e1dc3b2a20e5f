//! The interactive view as a state machine: a tree, its visible rows and a
//! cursor, and what each key does to them.

use vstd::prelude::*;
use vstd::string::*;
use crate::entry::FsEntry;
use crate::entry::TreeError;
use crate::render::depth_limit;
use crate::flatten::display_models;
use crate::flatten::lemma_rows_lead_to_nodes;
use crate::flatten::lemma_toggle_keeps_place;
use crate::tree::lemma_expand_then_collapse;
use crate::tree::tree_of;
use crate::flatten::DisplayRow;
use crate::flatten::DisplayRowModel;
use crate::tree::TreeModel;
use crate::tree::TreeNode;

verus! {

/// A key as the view tells keys apart.
#[derive(Clone, Copy, Debug, PartialEq, Eq, Structural)]
pub enum Key {
    Char(char),
    Up,
    Down,
    Left,
    Right,
    Enter,
    Other,
}

/// What a key asks for.
#[derive(Clone, Copy, Debug, PartialEq, Eq, Structural)]
pub enum Command {
    Quit,
    MoveUp,
    MoveDown,
    Expand,
    Collapse,
    Nothing,
}

/// What the caller does after a key: go on, or leave.
#[derive(Clone, Copy, Debug, PartialEq, Eq, Structural)]
pub enum Action {
    Continue,
    Exit,
}

/// What a key asks for: `q` leaves, the arrows up and down move the
/// cursor, right and enter open, left closes, and no other key does
/// anything.
pub open spec fn command_of(key: Key) -> Command {
    match key {
        Key::Char(c) => if c == 'q' {
            Command::Quit
        } else {
            Command::Nothing
        },
        Key::Down => Command::MoveDown,
        Key::Up => Command::MoveUp,
        Key::Right => Command::Expand,
        Key::Enter => Command::Expand,
        Key::Left => Command::Collapse,
        Key::Other => Command::Nothing,
    }
}

impl Key {
    /// What the key asks for.
    pub fn command(self) -> (r: Command)
        ensures
            r == command_of(self),
    {
        match self {
            Key::Char(c) => if c == 'q' {
                Command::Quit
            } else {
                Command::Nothing
            },
            Key::Down => Command::MoveDown,
            Key::Up => Command::MoveUp,
            Key::Right | Key::Enter => Command::Expand,
            Key::Left => Command::Collapse,
            Key::Other => Command::Nothing,
        }
    }
}

impl DisplayRowModel {
    /// The mark behind a directory: whether it can be opened or closed.
    pub open spec fn mark(self) -> Seq<char> {
        if !self.is_dir {
            Seq::empty()
        } else if self.expanded {
            " [-]"@
        } else {
            " [+]"@
        }
    }

    /// The text of the row.
    pub open spec fn label(self) -> Seq<char> {
        self.prefix + self.name + self.mark()
    }
}

impl DisplayRow {
    /// The text of the row: glyphs, name, and for a directory a mark that
    /// tells whether it is open.
    pub fn label(&self) -> (r: String)
        ensures
            r@ == self@.label(),
    {
        let mut text = String::from_str(self.prefix.as_str());
        text.append(self.name.as_str());
        if self.is_dir && !self.expanded {
            text.append(" [+]");
        } else if self.is_dir && self.expanded {
            text.append(" [-]");
        }
        text
    }
}

/// The state of the view, as a mathematical value: the tree, and the place
/// of the cursor among the visible rows.
pub struct SessionModel {
    pub tree: TreeModel,
    pub selected: nat,
}

impl SessionModel {
    /// The visible rows.
    pub open spec fn rows(self) -> Seq<DisplayRowModel> {
        self.tree.flatten()
    }

    /// Whether the cursor is on a row.
    pub open spec fn wf(self) -> bool {
        self.selected < self.rows().len()
    }

    /// The state after a command. Moving past either end changes nothing;
    /// opening and closing act on the row under the cursor, and only where
    /// that row is a directory that is closed, or open. The cursor then
    /// keeps its place by number.
    pub open spec fn after(self, command: Command) -> SessionModel {
        let row = self.rows()[self.selected as int];
        match command {
            Command::MoveDown => if self.selected + 1 < self.rows().len() {
                SessionModel { selected: self.selected + 1, ..self }
            } else {
                self
            },
            Command::MoveUp => if self.selected > 0 {
                SessionModel { selected: (self.selected - 1) as nat, ..self }
            } else {
                self
            },
            Command::Expand => if row.is_dir && !row.expanded {
                SessionModel { tree: self.tree.set_expanded(row.path, true), ..self }
            } else {
                self
            },
            Command::Collapse => if row.is_dir && row.expanded {
                SessionModel { tree: self.tree.set_expanded(row.path, false), ..self }
            } else {
                self
            },
            Command::Quit => self,
            Command::Nothing => self,
        }
    }
}

/// Every tree has a visible row, that of its root.
pub proof fn lemma_rows_not_empty(tree: TreeModel)
    ensures
        tree.flatten().len() > 0,
{
}

/// After every command the cursor is on a row, and after opening or
/// closing it is on the row of the node that was opened or closed.
pub proof fn lemma_cursor_stays_on_a_row(s: SessionModel, command: Command)
    requires
        s.wf(),
    ensures
        s.after(command).wf(),
        command is Expand || command is Collapse ==> s.after(command).selected == s.selected
            && s.after(command).rows()[s.selected as int].path == s.rows()[s.selected as int].path,
{
    lemma_toggle_keeps_place(s.tree, s.selected as int, true);
    lemma_toggle_keeps_place(s.tree, s.selected as int, false);
}

/// Opening the directory under the cursor and closing it again gives back
/// the state as it was, rows and cursor, unless the directory was open
/// before.
pub proof fn lemma_open_then_close(s: SessionModel)
    requires
        s.wf(),
        !(s.rows()[s.selected as int].is_dir && s.rows()[s.selected as int].expanded),
    ensures
        s.after(Command::Expand).after(Command::Collapse) == s,
        s.after(Command::Expand).after(Command::Collapse).rows() == s.rows(),
{
    let row = s.rows()[s.selected as int];
    if row.is_dir {
        lemma_toggle_keeps_place(s.tree, s.selected as int, true);
        lemma_rows_lead_to_nodes(s.tree);
        assert(row.path.skip(0) =~= row.path);
        lemma_expand_then_collapse(s.tree, row.path);
    }
}

/// The state of the view. The rows are always those of the tree, and the
/// cursor is always on one of them.
pub struct Session {
    tree: TreeNode,
    rows: Vec<DisplayRow>,
    selected: usize,
}

impl View for Session {
    type V = SessionModel;

    closed spec fn view(&self) -> SessionModel {
        SessionModel { tree: self.tree@, selected: self.selected as nat }
    }
}

impl Session {
    #[verifier::type_invariant]
    spec fn inv(self) -> bool {
        &&& display_models(self.rows@) == self.tree@.flatten()
        &&& self.selected < self.rows.len()
    }

    /// The view of a tree that was just built: the cursor on the root.
    pub fn new(tree: TreeNode) -> (r: Session)
        ensures
            r@ == (SessionModel { tree: tree@, selected: 0 }),
    {
        let rows = tree.flatten();
        proof {
            lemma_rows_not_empty(tree@);
        }
        Session { tree, rows, selected: 0 }
    }

    /// Builds the tree of an entry and the view of it. Fails where a
    /// directory that has to be listed could not be read.
    pub fn start(entry: &FsEntry, show_hidden: bool, max_depth: Option<usize>) -> (r: Result<
        Session,
        TreeError,
    >)
        ensures
            match tree_of(entry@, show_hidden, depth_limit(max_depth), 0) {
                Some(tree) => r is Ok && r->Ok_0@ == (SessionModel { tree, selected: 0 }),
                None => r is Err && r->Err_0 == TreeError::DirectoryUnreadable,
            },
    {
        match TreeNode::from_entry(entry, show_hidden, max_depth, 0) {
            Ok(tree) => Ok(Session::new(tree)),
            Err(e) => Err(e),
        }
    }

    /// The visible rows.
    pub fn rows(&self) -> (r: &Vec<DisplayRow>)
        ensures
            display_models(r@) == self@.rows(),
    {
        proof {
            use_type_invariant(self);
        }
        &self.rows
    }

    /// The place of the cursor among the rows.
    pub fn selected(&self) -> (r: usize)
        ensures
            r == self@.selected,
            r < self@.rows().len(),
    {
        proof {
            use_type_invariant(self);
        }
        self.selected
    }

    /// The tree.
    pub fn tree(&self) -> (r: &TreeNode)
        ensures
            r@ == self@.tree,
    {
        &self.tree
    }

    /// The state after a key, and whether to go on.
    pub fn step(self, key: Key) -> (r: (Session, Action))
        ensures
            self@.wf(),
            r.0@ == self@.after(command_of(key)),
            r.0@.wf(),
            r.1 == if command_of(key) is Quit {
                Action::Exit
            } else {
                Action::Continue
            },
    {
        proof {
            use_type_invariant(&self);
        }
        let command = key.command();
        let Session { mut tree, mut rows, mut selected } = self;
        match command {
            Command::Quit => {
                return (Session { tree, rows, selected }, Action::Exit);
            },
            Command::MoveDown => {
                if selected + 1 < rows.len() {
                    selected = selected + 1;
                }
            },
            Command::MoveUp => {
                if selected > 0 {
                    selected = selected - 1;
                }
            },
            Command::Expand => {
                if rows[selected].is_dir && !rows[selected].expanded {
                    proof {
                        lemma_toggle_keeps_place(tree@, selected as int, true);
                    }
                    tree.expand(&rows[selected].path);
                    rows = tree.flatten();
                }
            },
            Command::Collapse => {
                if rows[selected].is_dir && rows[selected].expanded {
                    proof {
                        lemma_toggle_keeps_place(tree@, selected as int, false);
                    }
                    tree.collapse(&rows[selected].path);
                    rows = tree.flatten();
                }
            },
            Command::Nothing => {},
        }
        (Session { tree, rows, selected }, Action::Continue)
    }
}

} // verus!
