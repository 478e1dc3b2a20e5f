//! The tree of the interactive view: built once, then only opened and
//! closed node by node, and flattened into the rows that are visible.

use vstd::prelude::*;
use vstd::string::*;
use crate::entry::entry_models;
use crate::entry::names_of;
use crate::entry::EntryModel;
use crate::entry::FsEntry;
use crate::entry::Listing;
use crate::entry::TreeError;
use crate::render::depth_limit;
use crate::scan::same_places;
use crate::scan::scan;
use crate::scan::scan_order;

verus! {

/// A node of the interactive tree.
#[derive(Debug)]
pub struct TreeNode {
    pub name: String,
    pub is_dir: bool,
    /// Whether the children are visible.
    pub expanded: bool,
    /// The entries of the directory, in the order in which they are shown.
    pub children: Vec<TreeNode>,
    /// How many levels below the root the node is.
    pub depth: usize,
}

/// A node of the interactive tree, as a mathematical tree.
pub struct TreeModel {
    pub name: Seq<char>,
    pub is_dir: bool,
    pub expanded: bool,
    pub children: Seq<TreeModel>,
    pub depth: nat,
}

impl TreeNode {
    /// The tree that this node stands for.
    pub open spec fn model(self) -> TreeModel
        decreases self,
    {
        TreeModel {
            name: self.name@,
            is_dir: self.is_dir,
            expanded: self.expanded,
            children: Seq::new(
                self.children@.len(),
                |i: int|
                    if 0 <= i < self.children@.len() {
                        self.children@[i].model()
                    } else {
                        arbitrary()
                    },
            ),
            depth: self.depth as nat,
        }
    }
}

impl View for TreeNode {
    type V = TreeModel;

    open spec fn view(&self) -> TreeModel {
        self.model()
    }
}

/// The trees that a vector of nodes stands for.
pub open spec fn node_models(v: Seq<TreeNode>) -> Seq<TreeModel> {
    Seq::new(v.len(), |i: int| v[i]@)
}

/// The model of a node holds the models of its children.
pub proof fn lemma_node_model(t: TreeNode)
    ensures
        t@.name == t.name@,
        t@.is_dir == t.is_dir,
        t@.expanded == t.expanded,
        t@.depth == t.depth,
        t@.children == node_models(t.children@),
{
}

impl TreeModel {
    /// The tree with the node at the end of `path` opened or closed. A path
    /// names, from the root down, the place of each node among its
    /// parent's children. Only a directory can be opened or closed; a path
    /// that leads nowhere changes nothing.
    pub open spec fn set_expanded(self, path: Seq<int>, value: bool) -> TreeModel
        decreases path.len(),
    {
        if path.len() == 0 {
            if self.is_dir {
                TreeModel { expanded: value, ..self }
            } else {
                self
            }
        } else {
            let i = path[0];
            if 0 <= i < self.children.len() {
                TreeModel {
                    children: self.children.update(
                        i,
                        self.children[i].set_expanded(path.drop_first(), value),
                    ),
                    ..self
                }
            } else {
                self
            }
        }
    }
}

/// The places that a path holds.
pub open spec fn places(path: Seq<usize>) -> Seq<int> {
    Seq::new(path.len(), |k: int| path[k] as int)
}

impl TreeNode {
    /// Opens or closes the node at the end of `path`, read from position
    /// `from` on.
    fn set_expanded_at(&mut self, path: &Vec<usize>, from: usize, value: bool)
        requires
            from <= path.len(),
        ensures
            final(self)@ == old(self)@.set_expanded(places(path@).skip(from as int), value),
        decreases path.len() - from,
    {
        if from == path.len() {
            if self.is_dir {
                self.expanded = value;
            }
        } else {
            let i = path[from];
            if i < self.children.len() {
                self.children[i].set_expanded_at(path, from + 1, value);
                proof {
                    assert(places(path@).skip(from as int).drop_first() =~= places(path@).skip(
                        from + 1,
                    ));
                    assert(self@.children =~= old(self)@.children.update(
                        i as int,
                        old(self)@.children[i as int].set_expanded(
                            places(path@).skip(from + 1),
                            value,
                        ),
                    ));
                }
            }
        }
    }
}

/// The node that an entry at `depth` becomes when it is no directory, or
/// is one at the limit: a node without children.
pub open spec fn leaf_of(e: EntryModel, depth: nat) -> TreeModel {
    TreeModel {
        name: e.name,
        is_dir: e.is_dir(),
        expanded: depth == 0,
        children: Seq::empty(),
        depth,
    }
}

/// The tree of an entry that stands at `depth`: its children are the
/// entries shown, in order, as long as the entry is a directory above the
/// limit. Only the root starts open. `None` where a directory that had to
/// be listed could not be read.
pub open spec fn tree_of(e: EntryModel, show_hidden: bool, limit: nat, depth: nat) -> Option<
    TreeModel,
>
    decreases e, 0nat,
{
    if e.is_dir() && depth < limit {
        match e.listing {
            None => None,
            Some(children) => {
                let order = scan_order(names_of(children), show_hidden);
                match trees_of_listing(children, order, order.len(), show_hidden, limit, depth + 1) {
                    None => None,
                    Some(trees) => Some(TreeModel { children: trees, ..leaf_of(e, depth) }),
                }
            },
        }
    } else {
        Some(leaf_of(e, depth))
    }
}

/// The trees of the first `n` entries of `order`, which stand at `depth`.
pub open spec fn trees_of_listing(
    children: Seq<EntryModel>,
    order: Seq<int>,
    n: nat,
    show_hidden: bool,
    limit: nat,
    depth: nat,
) -> Option<Seq<TreeModel>>
    decreases children, n,
{
    if n == 0 {
        Some(Seq::empty())
    } else {
        match trees_of_listing(children, order, (n - 1) as nat, show_hidden, limit, depth) {
            None => None,
            Some(trees) => {
                let i = order[n - 1];
                if 0 <= i < children.len() {
                    match tree_of(children[i], show_hidden, limit, depth) {
                        None => None,
                        Some(tree) => Some(trees.push(tree)),
                    }
                } else {
                    Some(trees)
                }
            },
        }
    }
}

impl TreeModel {
    /// The name under which a node is listed: a directory with a slash.
    pub open spec fn display_name(self) -> Seq<char> {
        if self.is_dir {
            self.name + "/"@
        } else {
            self.name
        }
    }

    /// Whether every node is one level below its parent, and only
    /// directories have children.
    pub open spec fn wf(self) -> bool
        decreases self,
    {
        &&& self.children.len() > 0 ==> self.is_dir
        &&& forall|i: int|
            0 <= i < self.children.len() ==> {
                &&& (#[trigger] self.children[i]).depth == self.depth + 1
                &&& self.children[i].wf()
            }
    }
}

impl TreeNode {
    /// Builds the tree of an entry that stands at `depth`, with every
    /// listing in its order, down to `max_depth`. Fails where a directory
    /// that has to be listed could not be read.
    pub fn from_entry(
        entry: &FsEntry,
        show_hidden: bool,
        max_depth: Option<usize>,
        depth: usize,
    ) -> (r: Result<TreeNode, TreeError>)
        ensures
            match tree_of(entry@, show_hidden, depth_limit(max_depth), depth as nat) {
                Some(tree) => r is Ok && r->Ok_0@ == tree,
                None => r is Err && r->Err_0 == TreeError::DirectoryUnreadable,
            },
        decreases entry,
    {
        let ghost limit = depth_limit(max_depth);
        let bound: usize = match max_depth {
            Some(m) => m,
            None => usize::MAX,
        };
        let is_dir = entry.is_dir();
        let mut node = TreeNode {
            name: String::from_str(entry.name.as_str()),
            is_dir,
            expanded: depth == 0,
            children: Vec::new(),
            depth,
        };
        proof {
            assert(node@.children =~= Seq::<TreeModel>::empty());
        }
        if is_dir && depth < bound {
            match &entry.listing {
                Listing::Unreadable => {
                    return Err(TreeError::DirectoryUnreadable);
                },
                Listing::Entries(v) => {
                    let order = scan(v, show_hidden);
                    let ghost children = entry_models(v@);
                    let ghost spots = scan_order(names_of(children), show_hidden);
                    let mut kids: Vec<TreeNode> = Vec::new();
                    let mut k: usize = 0;
                    while k < order.len()
                        invariant
                            k <= order.len(),
                            children == entry_models(v@),
                            entry.listing == Listing::Entries(*v),
                            same_places(order@, spots),
                            forall|j: int| 0 <= j < order.len() ==> order@[j] < v.len(),
                            limit == depth_limit(max_depth),
                            depth < limit,
                            depth < usize::MAX,
                            trees_of_listing(
                                children,
                                spots,
                                k as nat,
                                show_hidden,
                                limit,
                                (depth + 1) as nat,
                            ) == Some(node_models(kids@)),
                            spots == scan_order(names_of(children), show_hidden),
                            entry@.listing == Some(children),
                            entry@.is_dir(),
                        decreases order.len() - k,
                    {
                        let child = &v[order[k]];
                        match TreeNode::from_entry(child, show_hidden, max_depth, depth + 1) {
                            Err(e) => {
                                proof {
                                    lemma_trees_fail_later(
                                        children,
                                        spots,
                                        (k + 1) as nat,
                                        spots.len(),
                                        show_hidden,
                                        limit,
                                        (depth + 1) as nat,
                                    );
                                }
                                return Err(e);
                            },
                            Ok(kid) => {
                                kids.push(kid);
                            },
                        }
                        k += 1;
                    }
                    node.children = kids;
                    proof {
                        lemma_node_model(node);
                    }
                },
            }
        }
        Ok(node)
    }

    /// The name under which the node is listed.
    pub fn display_name(&self) -> (r: String)
        ensures
            r@ == self@.display_name(),
    {
        let mut text = String::from_str(self.name.as_str());
        if self.is_dir {
            text.append("/");
        }
        text
    }
}

/// Once the trees of the first entries cannot be built, nor can those of
/// more.
pub proof fn lemma_trees_fail_later(
    children: Seq<EntryModel>,
    order: Seq<int>,
    n: nat,
    m: nat,
    show_hidden: bool,
    limit: nat,
    depth: nat,
)
    requires
        n <= m,
        trees_of_listing(children, order, n, show_hidden, limit, depth) is None,
    ensures
        trees_of_listing(children, order, m, show_hidden, limit, depth) is None,
    decreases m,
{
    if n < m {
        lemma_trees_fail_later(children, order, n, (m - 1) as nat, show_hidden, limit, depth);
    }
}

impl TreeModel {
    /// The node at the end of a path, if the path leads to one.
    pub open spec fn node_at(self, path: Seq<int>) -> Option<TreeModel>
        decreases path.len(),
    {
        if path.len() == 0 {
            Some(self)
        } else {
            let i = path[0];
            if 0 <= i < self.children.len() {
                self.children[i].node_at(path.drop_first())
            } else {
                None
            }
        }
    }
}

impl TreeNode {
    /// Opens the directory at the end of `path`. Nothing changes where the
    /// path leads to no node, to a file, or to a directory that is open.
    pub fn expand(&mut self, path: &Vec<usize>)
        ensures
            final(self)@ == old(self)@.set_expanded(places(path@), true),
    {
        proof {
            assert(places(path@).skip(0) =~= places(path@));
        }
        self.set_expanded_at(path, 0, true);
    }

    /// Closes the directory at the end of `path`. Its children stay in the
    /// tree and are only left out of the rows.
    pub fn collapse(&mut self, path: &Vec<usize>)
        ensures
            final(self)@ == old(self)@.set_expanded(places(path@), false),
    {
        proof {
            assert(places(path@).skip(0) =~= places(path@));
        }
        self.set_expanded_at(path, 0, false);
    }
}

/// Opening a node and closing it again gives back the tree as it was, and
/// so the rows as they were, unless the node was an open directory before.
pub proof fn lemma_expand_then_collapse(t: TreeModel, path: Seq<int>)
    requires
        t.node_at(path) matches Some(node) ==> !(node.is_dir && node.expanded),
    ensures
        t.set_expanded(path, true).set_expanded(path, false) == t,
        t.set_expanded(path, true).set_expanded(path, false).flatten() == t.flatten(),
    decreases path.len(),
{
    if path.len() > 0 {
        let i = path[0];
        if 0 <= i < t.children.len() {
            let rest = path.drop_first();
            lemma_expand_then_collapse(t.children[i], rest);
            let opened = t.set_expanded(path, true);
            assert(opened.set_expanded(path, false).children =~= t.children);
        }
    }
}

/// Opening or closing a node changes no more than whether it is open:
/// every node keeps its name, its kind, its depth and its children.
pub proof fn lemma_set_expanded_keeps_content(t: TreeModel, path: Seq<int>, value: bool)
    ensures
        t.set_expanded(path, value).name == t.name,
        t.set_expanded(path, value).is_dir == t.is_dir,
        t.set_expanded(path, value).depth == t.depth,
        t.set_expanded(path, value).children.len() == t.children.len(),
        t.wf() ==> t.set_expanded(path, value).wf(),
    decreases path.len(),
{
    if path.len() > 0 {
        let i = path[0];
        if 0 <= i < t.children.len() {
            lemma_set_expanded_keeps_content(t.children[i], path.drop_first(), value);
        }
    }
}

impl TreeModel {
    /// Whether the tree is as it is when it was just built at `depth`:
    /// every node one level below its parent and none below the limit,
    /// children only in directories above the limit, and no node open but
    /// a root at depth 0.
    pub open spec fn is_fresh(self, depth: nat, limit: nat) -> bool
        decreases self,
    {
        &&& self.depth == depth
        &&& depth <= limit
        &&& self.expanded == (depth == 0)
        &&& self.children.len() > 0 ==> self.is_dir && depth < limit
        &&& forall|i: int|
            0 <= i < self.children.len() ==> (#[trigger] self.children[i]).is_fresh(
                depth + 1,
                limit,
            )
    }

    /// Whether no node stands below the limit.
    pub open spec fn within(self, limit: nat) -> bool
        decreases self,
    {
        &&& self.depth <= limit
        &&& forall|i: int|
            0 <= i < self.children.len() ==> (#[trigger] self.children[i]).within(limit)
    }
}

/// A tree as it was built is well formed, and none of its nodes stands
/// below the limit.
pub proof fn lemma_fresh_is_well_formed(t: TreeModel, depth: nat, limit: nat)
    requires
        t.is_fresh(depth, limit),
    ensures
        t.wf(),
        t.within(limit),
    decreases t,
{
    assert forall|i: int| 0 <= i < t.children.len() implies (#[trigger] t.children[i]).depth
        == t.depth + 1 && t.children[i].wf() && t.children[i].within(limit) by {
        lemma_fresh_is_well_formed(t.children[i], depth + 1, limit);
    }
}

/// The tree of an entry is as a tree is when it was just built: it has the
/// entry's name and kind, stands at `depth`, goes no deeper than the
/// limit, and only a root is open.
pub proof fn lemma_tree_of_is_fresh(e: EntryModel, show_hidden: bool, limit: nat, depth: nat)
    requires
        depth <= limit,
    ensures
        tree_of(e, show_hidden, limit, depth) matches Some(t) ==> t.name == e.name && t.is_dir
            == e.is_dir() && t.is_fresh(depth, limit),
    decreases e, 0nat,
{
    if e.is_dir() && depth < limit {
        match e.listing {
            None => {},
            Some(children) => {
                let order = scan_order(names_of(children), show_hidden);
                lemma_trees_of_listing_are_fresh(
                    children,
                    order,
                    order.len(),
                    show_hidden,
                    limit,
                    depth + 1,
                );
            },
        }
    }
}

/// The trees of the entries of a listing are as trees are when they were
/// just built.
pub proof fn lemma_trees_of_listing_are_fresh(
    children: Seq<EntryModel>,
    order: Seq<int>,
    n: nat,
    show_hidden: bool,
    limit: nat,
    depth: nat,
)
    requires
        depth <= limit,
    ensures
        trees_of_listing(children, order, n, show_hidden, limit, depth) matches Some(trees)
            ==> forall|j: int| 0 <= j < trees.len() ==> (#[trigger] trees[j]).is_fresh(depth, limit),
    decreases children, n,
{
    if n > 0 {
        lemma_trees_of_listing_are_fresh(
            children,
            order,
            (n - 1) as nat,
            show_hidden,
            limit,
            depth,
        );
        let i = order[n - 1];
        if 0 <= i < children.len() {
            lemma_tree_of_is_fresh(children[i], show_hidden, limit, depth);
        }
    }
}

/// The trees of the first `n` entries depend on the first `n` places only.
pub proof fn lemma_trees_of_first(
    children: Seq<EntryModel>,
    a: Seq<int>,
    b: Seq<int>,
    n: nat,
    show_hidden: bool,
    limit: nat,
    depth: nat,
)
    requires
        forall|j: int| 0 <= j < n ==> a[j] == b[j],
    ensures
        trees_of_listing(children, a, n, show_hidden, limit, depth) == trees_of_listing(
            children,
            b,
            n,
            show_hidden,
            limit,
            depth,
        ),
    decreases n,
{
    if n > 0 {
        lemma_trees_of_first(children, a, b, (n - 1) as nat, show_hidden, limit, depth);
    }
}

/// Where the trees of the first `n` entries can be built, there is one
/// for each place, and each is the tree of the entry at its place.
pub proof fn lemma_trees_of_listing_each(
    children: Seq<EntryModel>,
    order: Seq<int>,
    n: nat,
    show_hidden: bool,
    limit: nat,
    depth: nat,
)
    requires
        trees_of_listing(children, order, n, show_hidden, limit, depth) is Some,
        forall|j: int| 0 <= j < n ==> 0 <= #[trigger] order[j] < children.len(),
    ensures
        trees_of_listing(children, order, n, show_hidden, limit, depth)->0.len() == n,
        forall|k: int|
            0 <= k < n ==> tree_of(children[#[trigger] order[k]], show_hidden, limit, depth)
                == Some(trees_of_listing(children, order, n, show_hidden, limit, depth)->0[k]),
    decreases n,
{
    if n > 0 {
        lemma_trees_of_listing_each(children, order, (n - 1) as nat, show_hidden, limit, depth);
    }
}

} // verus!
