//! The visible rows of the interactive tree: each open directory followed
//! by its children, each row with the glyphs in front of it and with the
//! path to its node.

use vstd::prelude::*;
use vstd::string::*;
use crate::render::connector;
use crate::render::connector_str;
use crate::render::continuation;
use crate::render::continuation_str;
use crate::tree::lemma_node_model;
use crate::tree::node_models;
use crate::tree::places;
use crate::tree::TreeModel;
use crate::tree::TreeNode;

verus! {

/// One visible row of the interactive view, as a mathematical value.
pub struct DisplayRowModel {
    pub prefix: Seq<char>,
    pub name: Seq<char>,
    pub is_dir: bool,
    pub expanded: bool,
    pub path: Seq<int>,
}

/// One visible row of the interactive view: the glyphs in front, what is
/// shown of the node, and the path that leads to the node.
#[derive(Debug)]
pub struct DisplayRow {
    pub prefix: String,
    pub name: String,
    pub is_dir: bool,
    pub expanded: bool,
    pub path: Vec<usize>,
}

impl View for DisplayRow {
    type V = DisplayRowModel;

    open spec fn view(&self) -> DisplayRowModel {
        DisplayRowModel {
            prefix: self.prefix@,
            name: self.name@,
            is_dir: self.is_dir,
            expanded: self.expanded,
            path: places(self.path@),
        }
    }
}

/// The rows that a vector of rows stands for.
pub open spec fn display_models(rows: Seq<DisplayRow>) -> Seq<DisplayRowModel> {
    Seq::new(rows.len(), |i: int| rows[i]@)
}

impl TreeModel {
    /// The row of this node, reached by `path`, where the rows of its
    /// parent's children begin with `prefix`. The root has no connector.
    pub open spec fn row(self, prefix: Seq<char>, is_last: bool, path: Seq<int>) -> DisplayRowModel {
        DisplayRowModel {
            prefix: if self.depth > 0 {
                prefix + connector(is_last)
            } else {
                prefix
            },
            name: self.display_name(),
            is_dir: self.is_dir,
            expanded: self.expanded,
            path,
        }
    }

    /// What the rows of this node's children begin with.
    pub open spec fn child_prefix(self, prefix: Seq<char>, is_last: bool) -> Seq<char> {
        if self.depth > 0 {
            prefix + continuation(is_last)
        } else {
            prefix
        }
    }

    /// The visible rows of this node and of what is below it: its own row,
    /// then, only if it is an open directory, the rows of each child in
    /// turn.
    pub open spec fn flatten_inner(
        self,
        prefix: Seq<char>,
        is_last: bool,
        path: Seq<int>,
    ) -> Seq<DisplayRowModel>
        decreases self, 0nat,
    {
        if self.is_dir && self.expanded {
            seq![self.row(prefix, is_last, path)] + flatten_children(
                self.children,
                0,
                self.child_prefix(prefix, is_last),
                path,
            )
        } else {
            seq![self.row(prefix, is_last, path)]
        }
    }

    /// The visible rows of the whole tree.
    pub open spec fn flatten(self) -> Seq<DisplayRowModel> {
        self.flatten_inner(Seq::empty(), true, Seq::empty())
    }
}

/// The visible rows of the children from place `from` on.
pub open spec fn flatten_children(
    children: Seq<TreeModel>,
    from: int,
    prefix: Seq<char>,
    path: Seq<int>,
) -> Seq<DisplayRowModel>
    decreases children, children.len() - from,
{
    if 0 <= from < children.len() {
        children[from].flatten_inner(prefix, from == children.len() - 1, path.push(from))
            + flatten_children(children, from + 1, prefix, path)
    } else {
        Seq::empty()
    }
}

/// A copy of a path with one more place behind it.
fn extend_path(path: &Vec<usize>, place: usize) -> (r: Vec<usize>)
    ensures
        places(r@) == places(path@).push(place as int),
{
    let mut r = path.clone();
    r.push(place);
    r
}

impl TreeNode {
    /// The visible rows of the whole tree, from the root down.
    pub fn flatten(&self) -> (rows: Vec<DisplayRow>)
        ensures
            display_models(rows@) == self@.flatten(),
    {
        let mut out: Vec<DisplayRow> = Vec::new();
        let path: Vec<usize> = Vec::new();
        proof {
            assert(places(path@) =~= Seq::<int>::empty());
        }
        self.flatten_inner("", &mut out, true, &path);
        proof {
            reveal_strlit("");
            assert(""@ =~= Seq::<char>::empty());
        }
        out
    }

    /// Puts the visible rows of this node, and of what is below it, behind
    /// the rows in `out`. `path` leads to this node, and the rows of its
    /// parent's children begin with `prefix`.
    pub fn flatten_inner(
        &self,
        prefix: &str,
        out: &mut Vec<DisplayRow>,
        is_last: bool,
        path: &Vec<usize>,
    )
        ensures
            display_models(final(out)@) == display_models(old(out)@) + self@.flatten_inner(
                prefix@,
                is_last,
                places(path@),
            ),
        decreases self,
    {
        let ghost here = places(path@);
        proof {
            lemma_node_model(*self);
        }
        let mut this_prefix = String::from_str(prefix);
        let mut below_prefix = String::from_str(prefix);
        if self.depth > 0 {
            this_prefix.append(connector_str(is_last));
            below_prefix.append(continuation_str(is_last));
        }
        let own_path = path.clone();
        let row = DisplayRow {
            prefix: this_prefix,
            name: self.display_name(),
            is_dir: self.is_dir,
            expanded: self.expanded,
            path: own_path,
        };
        out.push(row);
        let ghost start = display_models(out@);
        if self.is_dir && self.expanded {
            let ghost kids = node_models(self.children@);
            let ghost whole = flatten_children(kids, 0, below_prefix@, here);
            let n = self.children.len();
            let mut i: usize = 0;
            while i < n
                invariant
                    i <= n,
                    n == self.children.len(),
                    kids == node_models(self.children@),
                    here == places(path@),
                    start + whole == display_models(out@) + flatten_children(
                        kids,
                        i as int,
                        below_prefix@,
                        here,
                    ),
                decreases n - i,
            {
                let child_path = extend_path(path, i);
                self.children[i].flatten_inner(below_prefix.as_str(), out, i == n - 1, &child_path);
                i += 1;
            }
        }
    }
}

impl DisplayRowModel {
    /// Whether the row shows this node.
    pub open spec fn shows_node(self, node: TreeModel) -> bool {
        &&& self.name == node.display_name()
        &&& self.is_dir == node.is_dir
        &&& self.expanded == node.expanded
    }

    /// Whether the row shows the node to which its path leads from `tree`,
    /// once the first `skip` places of the path are left out.
    pub open spec fn leads_to_its_node(self, tree: TreeModel, skip: int) -> bool {
        &&& 0 <= skip <= self.path.len()
        &&& tree.node_at(self.path.skip(skip)) matches Some(node) && self.shows_node(node)
    }
}

/// Every row of a node and of what is below it carries a path that starts
/// with the node's own and leads on to the node that the row shows.
proof fn lemma_flatten_inner_paths(t: TreeModel, prefix: Seq<char>, is_last: bool, path: Seq<int>)
    ensures
        forall|k: int|
            0 <= k < t.flatten_inner(prefix, is_last, path).len() ==> {
                let row = #[trigger] t.flatten_inner(prefix, is_last, path)[k];
                &&& row.path.take(path.len() as int) == path
                &&& row.leads_to_its_node(t, path.len() as int)
            },
    decreases t, 0nat,
{
    let rows = t.flatten_inner(prefix, is_last, path);
    if t.is_dir && t.expanded {
        let below = flatten_children(t.children, 0, t.child_prefix(prefix, is_last), path);
        lemma_flatten_children_paths(t.children, 0, t.child_prefix(prefix, is_last), path);
        assert forall|k: int| 0 <= k < rows.len() implies {
            let row = #[trigger] rows[k];
            &&& row.path.take(path.len() as int) == path
            &&& row.leads_to_its_node(t, path.len() as int)
        } by {
            if k > 0 {
                let row = below[k - 1];
                let rel = row.path.skip(path.len() as int);
                assert(rel.drop_first() =~= row.path.skip(path.len() as int + 1));
            }
        }
    }
}

/// The same, for the rows of the children from place `from` on: each
/// path goes on from the parent's into one of these children.
proof fn lemma_flatten_children_paths(
    children: Seq<TreeModel>,
    from: int,
    prefix: Seq<char>,
    path: Seq<int>,
)
    requires
        0 <= from,
    ensures
        forall|k: int|
            0 <= k < flatten_children(children, from, prefix, path).len() ==> {
                let row = #[trigger] flatten_children(children, from, prefix, path)[k];
                &&& row.path.len() > path.len()
                &&& row.path.take(path.len() as int) == path
                &&& from <= row.path[path.len() as int] < children.len()
                &&& row.leads_to_its_node(
                    children[row.path[path.len() as int]],
                    path.len() as int + 1,
                )
            },
    decreases children, children.len() - from,
{
    let rows = flatten_children(children, from, prefix, path);
    if from < children.len() {
        let longer = path.push(from);
        let head = children[from].flatten_inner(prefix, from == children.len() - 1, longer);
        let rest = flatten_children(children, from + 1, prefix, path);
        assert(rows == head + rest);
        lemma_flatten_inner_paths(children[from], prefix, from == children.len() - 1, longer);
        lemma_flatten_children_paths(children, from + 1, prefix, path);
        assert forall|k: int| 0 <= k < rows.len() implies {
            let row = #[trigger] rows[k];
            &&& row.path.len() > path.len()
            &&& row.path.take(path.len() as int) == path
            &&& from <= row.path[path.len() as int] < children.len()
            &&& row.leads_to_its_node(
                children[row.path[path.len() as int]],
                path.len() as int + 1,
            )
        } by {
            if k < head.len() {
                let row = head[k];
                assert(row.path.take(longer.len() as int)[path.len() as int] == from);
            }
        }
    }
}

/// Every visible row carries the path to the node that it shows.
pub proof fn lemma_rows_lead_to_nodes(t: TreeModel)
    ensures
        forall|k: int|
            0 <= k < t.flatten().len() ==> (#[trigger] t.flatten()[k]).leads_to_its_node(t, 0),
{
    lemma_flatten_inner_paths(t, Seq::empty(), true, Seq::empty());
}

impl DisplayRowModel {
    /// The row as it is once its node was opened or closed: a directory is
    /// open or closed as asked, every other row is as it was.
    pub open spec fn toggled(self, value: bool) -> DisplayRowModel {
        if self.is_dir {
            DisplayRowModel { expanded: value, ..self }
        } else {
            self
        }
    }
}

/// Opening or closing the node of a row leaves the rows before it as they
/// are and the row itself in its place: among the rows of a node and of
/// what is below it.
proof fn lemma_toggle_keeps_rows_before(
    t: TreeModel,
    prefix: Seq<char>,
    is_last: bool,
    path: Seq<int>,
    k: int,
    value: bool,
)
    requires
        0 <= k < t.flatten_inner(prefix, is_last, path).len(),
    ensures
        ({
            let rows = t.flatten_inner(prefix, is_last, path);
            let after = t.set_expanded(rows[k].path.skip(path.len() as int), value).flatten_inner(
                prefix,
                is_last,
                path,
            );
            &&& after.len() > k
            &&& after[k] == rows[k].toggled(value)
            &&& forall|m: int| 0 <= m < k ==> after[m] == rows[m]
        }),
    decreases t, 0nat,
{
    let rows = t.flatten_inner(prefix, is_last, path);
    let row = rows[k];
    let rel = row.path.skip(path.len() as int);
    if k > 0 {
        let inner = t.child_prefix(prefix, is_last);
        let below = flatten_children(t.children, 0, inner, path);
        assert(row == below[k - 1]);
        lemma_flatten_children_paths(t.children, 0, inner, path);
        assert(rel.drop_first() =~= row.path.skip(path.len() as int + 1));
        lemma_toggle_keeps_children_rows_before(t.children, 0, inner, path, k - 1, value);
    }
}

/// The same, among the rows of the children from place `from` on.
proof fn lemma_toggle_keeps_children_rows_before(
    children: Seq<TreeModel>,
    from: int,
    prefix: Seq<char>,
    path: Seq<int>,
    k: int,
    value: bool,
)
    requires
        0 <= from,
        0 <= k < flatten_children(children, from, prefix, path).len(),
    ensures
        ({
            let rows = flatten_children(children, from, prefix, path);
            let i = rows[k].path[path.len() as int];
            let changed = children.update(
                i,
                children[i].set_expanded(rows[k].path.skip(path.len() as int + 1), value),
            );
            let after = flatten_children(changed, from, prefix, path);
            &&& after.len() > k
            &&& after[k] == rows[k].toggled(value)
            &&& forall|m: int| 0 <= m < k ==> after[m] == rows[m]
        }),
    decreases children, children.len() - from,
{
    let rows = flatten_children(children, from, prefix, path);
    let row = rows[k];
    let longer = path.push(from);
    let last = from == children.len() - 1;
    let head = children[from].flatten_inner(prefix, last, longer);
    lemma_flatten_children_paths(children, from, prefix, path);
    if k < head.len() {
        lemma_flatten_inner_paths(children[from], prefix, last, longer);
        assert(row.path.take(longer.len() as int)[path.len() as int] == from);
        lemma_toggle_keeps_rows_before(children[from], prefix, last, longer, k, value);
    } else {
        lemma_flatten_children_paths(children, from + 1, prefix, path);
        lemma_toggle_keeps_children_rows_before(
            children,
            from + 1,
            prefix,
            path,
            k - head.len(),
            value,
        );
    }
}

/// Opening or closing the node of a visible row leaves the rows before it
/// as they are and the row itself in its place, so the number of a row
/// still names the node that was opened or closed.
pub proof fn lemma_toggle_keeps_place(t: TreeModel, k: int, value: bool)
    requires
        0 <= k < t.flatten().len(),
    ensures
        t.set_expanded(t.flatten()[k].path, value).flatten().len() > k,
        t.set_expanded(t.flatten()[k].path, value).flatten()[k] == t.flatten()[k].toggled(value),
        forall|m: int|
            0 <= m < k ==> t.set_expanded(t.flatten()[k].path, value).flatten()[m]
                == t.flatten()[m],
{
    let path = t.flatten()[k].path;
    assert(path.skip(0) =~= path);
    lemma_toggle_keeps_rows_before(t, Seq::empty(), true, Seq::empty(), k, value);
}

} // verus!
