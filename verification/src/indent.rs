//! Both views draw one tree with the same glyphs: the rows of the
//! interactive tree, all of its directories open, begin as the lines of
//! the drawing do.

use vstd::prelude::*;
use crate::entry::names_of;
use crate::entry::EntryModel;
use crate::flatten::flatten_children;
use crate::flatten::DisplayRowModel;
use crate::render::child_row;
use crate::render::continuation;
use crate::render::rows_below;
use crate::render::rows_of_listing;
use crate::render::tree_rows;
use crate::render::RowModel;
use crate::scan::lemma_scan_order;
use crate::scan::scan_order;
use crate::tree::lemma_trees_of_listing_each;
use crate::tree::tree_of;
use crate::tree::trees_of_listing;
use crate::tree::TreeModel;

verus! {

impl TreeModel {
    /// The tree with every directory open.
    pub open spec fn fully_open(self) -> TreeModel
        decreases self,
    {
        TreeModel {
            expanded: self.is_dir || self.expanded,
            children: Seq::new(
                self.children.len(),
                |i: int|
                    if 0 <= i < self.children.len() {
                        self.children[i].fully_open()
                    } else {
                        arbitrary()
                    },
            ),
            ..self
        }
    }
}

/// Whether rows and lines are as many and begin with the same glyphs, one
/// by one.
pub open spec fn same_glyphs(rows: Seq<DisplayRowModel>, lines: Seq<RowModel>) -> bool {
    &&& rows.len() == lines.len()
    &&& forall|k: int| 0 <= k < rows.len() ==> (#[trigger] rows[k]).prefix == lines[k].prefix
}

/// The rows of an entry's tree, all open, and the lines of the entry and
/// of what is below it have the same glyphs, where the entry stands below
/// the root.
proof fn lemma_same_glyphs_at(
    e: EntryModel,
    show_hidden: bool,
    limit: nat,
    prefix: Seq<char>,
    is_last: bool,
    path: Seq<int>,
    depth: nat,
)
    requires
        1 <= depth <= limit,
        tree_of(e, show_hidden, limit, depth) is Some,
    ensures
        rows_below(e, show_hidden, limit, prefix + continuation(is_last), depth).complete,
        same_glyphs(
            tree_of(e, show_hidden, limit, depth)->0.fully_open().flatten_inner(
                prefix,
                is_last,
                path,
            ),
            seq![child_row(e, prefix, is_last, depth)] + rows_below(
                e,
                show_hidden,
                limit,
                prefix + continuation(is_last),
                depth,
            ).rows,
        ),
    decreases e, 0nat,
{
    let tree = tree_of(e, show_hidden, limit, depth)->0;
    let open = tree.fully_open();
    let inner = prefix + continuation(is_last);
    if e.is_dir() && depth < limit {
        let children = e.listing->0;
        let order = scan_order(names_of(children), show_hidden);
        lemma_scan_order(names_of(children), show_hidden);
        lemma_same_glyphs_of_listing(children, order, 0, show_hidden, limit, inner, path, depth + 1);
        let trees = trees_of_listing(children, order, order.len(), show_hidden, limit, depth + 1)->0;
        assert(open.children =~= Seq::new(trees.len(), |k: int| trees[k].fully_open()));
    }
}

/// The same, for the entries of a listing from the `from`-th place on and
/// the trees that were built of them.
proof fn lemma_same_glyphs_of_listing(
    children: Seq<EntryModel>,
    order: Seq<int>,
    from: int,
    show_hidden: bool,
    limit: nat,
    prefix: Seq<char>,
    path: Seq<int>,
    depth: nat,
)
    requires
        1 <= depth <= limit,
        0 <= from <= order.len(),
        forall|k: int| 0 <= k < order.len() ==> 0 <= #[trigger] order[k] < children.len(),
        trees_of_listing(children, order, order.len(), show_hidden, limit, depth) is Some,
    ensures
        ({
            let trees = trees_of_listing(children, order, order.len(), show_hidden, limit, depth)->0;
            let open = Seq::new(trees.len(), |k: int| trees[k].fully_open());
            let lines = rows_of_listing(children, order, from, show_hidden, limit, prefix, depth);
            &&& lines.complete
            &&& same_glyphs(flatten_children(open, from, prefix, path), lines.rows)
        }),
    decreases children, order.len() - from,
{
    lemma_trees_of_listing_each(children, order, order.len(), show_hidden, limit, depth);
    if from < order.len() {
        let i = order[from];
        let last = from == order.len() - 1;
        let child = children[i];
        lemma_same_glyphs_at(child, show_hidden, limit, prefix, last, path.push(from), depth);
        lemma_same_glyphs_of_listing(
            children,
            order,
            from + 1,
            show_hidden,
            limit,
            prefix,
            path,
            depth,
        );
    }
}

/// Both views draw one tree with the same glyphs: where the tree of an
/// entry can be built, its drawing is complete, and the rows of the tree,
/// with every directory open, are as many as the lines of the drawing and
/// begin with the same glyphs.
pub proof fn lemma_views_agree(e: EntryModel, show_hidden: bool, limit: nat)
    requires
        tree_of(e, show_hidden, limit, 0) is Some,
    ensures
        tree_rows(e, show_hidden, limit, Seq::empty(), 0).complete,
        same_glyphs(
            tree_of(e, show_hidden, limit, 0)->0.fully_open().flatten(),
            tree_rows(e, show_hidden, limit, Seq::empty(), 0).rows,
        ),
{
    let empty = Seq::<char>::empty();
    let tree = tree_of(e, show_hidden, limit, 0)->0;
    let open = tree.fully_open();
    if e.is_dir() && 0 < limit {
        let children = e.listing->0;
        let order = scan_order(names_of(children), show_hidden);
        lemma_scan_order(names_of(children), show_hidden);
        lemma_same_glyphs_of_listing(
            children,
            order,
            0,
            show_hidden,
            limit,
            empty,
            Seq::empty(),
            1,
        );
        let trees = trees_of_listing(children, order, order.len(), show_hidden, limit, 1)->0;
        assert(open.children =~= Seq::new(trees.len(), |k: int| trees[k].fully_open()));
    }
}

} // verus!
