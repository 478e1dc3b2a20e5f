//! What hiding does to a drawing: it takes lines out and changes nothing
//! else but the glyphs in front of the names.

use vstd::prelude::*;
use crate::entry::names_of;
use crate::entry::EntryModel;
use crate::render::child_row;
use crate::render::continuation;
use crate::render::lemma_rows_below_fit;
use crate::render::root_row;
use crate::render::rows_below;
use crate::render::rows_of_listing;
use crate::render::tree_rows;
use crate::render::RowModel;
use crate::scan::is_visible_place;
use crate::scan::lemma_hidden_left_out;
use crate::scan::lemma_scan_order;
use crate::scan::scan_order;
use crate::text::is_hidden_name;
use crate::tree::lemma_trees_of_first;
use crate::tree::lemma_trees_fail_later;
use crate::tree::tree_of;
use crate::tree::trees_of_listing;
use crate::tree::TreeModel;

verus! {

/// A line without the glyphs in front of the name.
pub open spec fn bare(row: RowModel) -> RowModel {
    RowModel { prefix: Seq::empty(), ..row }
}

/// Lines without the glyphs in front of the names.
pub open spec fn bare_rows(rows: Seq<RowModel>) -> Seq<RowModel> {
    Seq::new(rows.len(), |i: int| bare(rows[i]))
}

/// The lines that are left when every line below the root whose name
/// starts with a dot is taken out together with the lines below it, which
/// are the deeper lines that follow it. `cut` is the depth of the line
/// under which lines are being taken out, if any.
pub open spec fn without_hidden_rows(rows: Seq<RowModel>, cut: Option<nat>) -> Seq<RowModel>
    decreases rows.len(),
{
    if rows.len() == 0 {
        rows
    } else {
        let row = rows[0];
        let rest = rows.drop_first();
        if cut is Some && row.depth > cut->0 {
            without_hidden_rows(rest, cut)
        } else if row.depth > 0 && is_hidden_name(row.name) {
            without_hidden_rows(rest, Some(row.depth))
        } else {
            seq![row] + without_hidden_rows(rest, None)
        }
    }
}

/// An entry's label starts with a dot exactly if its name does.
pub proof fn lemma_label_hidden(e: EntryModel)
    ensures
        is_hidden_name(e.label()) == is_hidden_name(e.name),
{
    reveal_strlit(" -> [broken link]");
    reveal_strlit("/ -> ");
    reveal_strlit(" -> ");
    reveal_strlit("/");
}

/// Below a line under which lines are taken out, all deeper lines go.
proof fn lemma_all_cut(rows: Seq<RowModel>, depth: nat)
    requires
        forall|k: int| 0 <= k < rows.len() ==> (#[trigger] rows[k]).depth > depth,
    ensures
        without_hidden_rows(rows, Some(depth)) == Seq::<RowModel>::empty(),
    decreases rows.len(),
{
    if rows.len() > 0 {
        let rest = rows.drop_first();
        lemma_all_cut(rest, depth);
    }
}

/// Taking lines out of lines that are followed by a line no deeper than
/// any of them is taking them out of both parts.
proof fn lemma_cut_in_parts(x: Seq<RowModel>, b: Seq<RowModel>, cut: Option<nat>)
    requires
        b.len() > 0 ==> forall|k: int| 0 <= k < x.len() ==> (#[trigger] x[k]).depth >= b[0].depth,
        b.len() > 0 && cut is Some ==> b[0].depth <= cut->0,
    ensures
        without_hidden_rows(x + b, cut) == without_hidden_rows(x, cut) + without_hidden_rows(
            b,
            None,
        ),
    decreases x.len(),
{
    if x.len() > 0 {
        let row = x[0];
        let rest = x.drop_first();
        assert((x + b).drop_first() =~= rest + b);
        if cut is Some && row.depth > cut->0 {
            lemma_cut_in_parts(rest, b, cut);
        } else if row.depth > 0 && is_hidden_name(row.name) {
            lemma_cut_in_parts(rest, b, Some(row.depth));
        } else {
            lemma_cut_in_parts(rest, b, None);
        }
    }
}

/// Taking the glyphs off lines takes them off each part.
proof fn lemma_bare_parts(x: Seq<RowModel>, y: Seq<RowModel>)
    ensures
        bare_rows(x + y) == bare_rows(x) + bare_rows(y),
{
}

/// Hiding, below one entry: where the drawing with hidden entries is
/// complete, so is the drawing without them, and its lines are those of
/// the other with the hidden lines, and the lines below them, taken out,
/// but for the glyphs in front.
pub proof fn lemma_hidden_rows_left_out_below(
    e: EntryModel,
    limit: nat,
    shown_prefix: Seq<char>,
    prefix: Seq<char>,
    depth: nat,
)
    requires
        rows_below(e, true, limit, shown_prefix, depth).complete,
    ensures
        rows_below(e, false, limit, prefix, depth).complete,
        bare_rows(rows_below(e, false, limit, prefix, depth).rows) == bare_rows(
            without_hidden_rows(rows_below(e, true, limit, shown_prefix, depth).rows, None),
        ),
    decreases e, 0nat,
{
    if e.is_dir() && depth < limit {
        match e.listing {
            None => {},
            Some(children) => {
                let names = names_of(children);
                let all = scan_order(names, true);
                lemma_scan_order(names, true);
                lemma_hidden_left_out(names);
                lemma_hidden_listing_rows_left_out(
                    children,
                    all,
                    0,
                    limit,
                    shown_prefix,
                    prefix,
                    depth + 1,
                );
            },
        }
    }
}

/// The same, for the lines of a directory's entries from the `k`-th on.
proof fn lemma_hidden_listing_rows_left_out(
    children: Seq<EntryModel>,
    all: Seq<int>,
    k: int,
    limit: nat,
    shown_prefix: Seq<char>,
    prefix: Seq<char>,
    depth: nat,
)
    requires
        1 <= depth <= limit,
        0 <= k <= all.len(),
        forall|j: int| 0 <= j < all.len() ==> 0 <= #[trigger] all[j] < children.len(),
        rows_of_listing(children, all, k, true, limit, shown_prefix, depth).complete,
    ensures
        ({
            let keep = is_visible_place(names_of(children));
            let kept = all.filter(keep);
            let j = all.take(k).filter(keep).len() as int;
            let hidden_off = rows_of_listing(children, kept, j, false, limit, prefix, depth);
            let hidden_on = rows_of_listing(children, all, k, true, limit, shown_prefix, depth);
            &&& hidden_off.complete
            &&& bare_rows(hidden_off.rows) == bare_rows(without_hidden_rows(hidden_on.rows, None))
        }),
    decreases children, all.len() - k,
{
    let names = names_of(children);
    let keep = is_visible_place(names);
    let kept = all.filter(keep);
    let taken = all.take(k).filter(keep);
    let j = taken.len() as int;
    let hidden_on = rows_of_listing(children, all, k, true, limit, shown_prefix, depth);
    if k == all.len() {
        assert(all.take(k) =~= all);
    } else {
        let i = all[k];
        let child = children[i];
        assert(all.take(k + 1) =~= all.take(k).push(i));
        all.take(k).lemma_filter_push(i, keep);
        assert(all =~= all.take(k + 1) + all.skip(k + 1));
        Seq::filter_distributes_over_add(all.take(k + 1), all.skip(k + 1), keep);
        let last_on = k == all.len() - 1;
        let below_on = rows_below(child, true, limit, shown_prefix + continuation(last_on), depth);
        let rest_on = rows_of_listing(children, all, k + 1, true, limit, shown_prefix, depth);
        lemma_hidden_listing_rows_left_out(
            children,
            all,
            k + 1,
            limit,
            shown_prefix,
            prefix,
            depth,
        );
        lemma_rows_below_fit(child, true, limit, shown_prefix + continuation(last_on), depth);
        lemma_label_hidden(child);
        // What follows the lines below this entry starts no deeper.
        let tail = below_on.rows + rest_on.rows;
        assert(hidden_on.rows.drop_first() =~= tail);
        if keep(i) {
            let last_off = j == kept.len() - 1;
            let below_off = rows_below(child, false, limit, prefix + continuation(last_off), depth);
            let row_off = child_row(child, prefix, last_off, depth);
            let rest_off = rows_of_listing(children, kept, j + 1, false, limit, prefix, depth);
            lemma_hidden_rows_left_out_below(
                child,
                limit,
                shown_prefix + continuation(last_on),
                prefix + continuation(last_off),
                depth,
            );
            lemma_cut_in_parts(below_on.rows, rest_on.rows, None);
            lemma_bare_parts(seq![row_off] + below_off.rows, rest_off.rows);
            lemma_bare_parts(seq![row_off], below_off.rows);
        } else {
            lemma_cut_in_parts(below_on.rows, rest_on.rows, Some(depth));
            lemma_all_cut(below_on.rows, depth);
        }
    }
}

/// Hiding is leaving out and nothing more: where the drawing of a tree
/// with its hidden entries is complete, so is the drawing without them,
/// and its lines are the lines of the other from which every line with a
/// name that starts with a dot is taken out together with the lines below
/// it. The root's own line stays whatever its name. This holds of names,
/// classes and depths; the glyphs in front can differ, as an entry that is
/// the last one shown need not be the last of all.
pub proof fn lemma_hidden_rows_left_out(e: EntryModel, limit: nat)
    requires
        tree_rows(e, true, limit, Seq::empty(), 0).complete,
    ensures
        tree_rows(e, false, limit, Seq::empty(), 0).complete,
        bare_rows(tree_rows(e, false, limit, Seq::empty(), 0).rows) == bare_rows(
            without_hidden_rows(tree_rows(e, true, limit, Seq::empty(), 0).rows, None),
        ),
{
    let empty = Seq::<char>::empty();
    lemma_hidden_rows_left_out_below(e, limit, empty, empty, 0);
    let on = rows_below(e, true, limit, empty, 0).rows;
    let off = rows_below(e, false, limit, empty, 0).rows;
    let all_on = tree_rows(e, true, limit, empty, 0).rows;
    assert(all_on.drop_first() =~= on);
    lemma_bare_parts(seq![root_row(e)], off);
}

/// Whether hiding leaves the glyphs of a drawing as they are: in every
/// directory that is listed when hidden entries are left out, the last
/// entry of all is one that is shown, unless none is shown.
pub open spec fn keeps_glyphs(e: EntryModel, limit: nat, depth: nat) -> bool
    decreases e,
{
    if e.is_dir() && depth < limit && e.listing is Some {
        let children = e.listing->0;
        let names = names_of(children);
        let all = scan_order(names, true);
        &&& all.len() > 0 && is_hidden_name(names[all.last()]) ==> forall|k: int|
            0 <= k < all.len() ==> is_hidden_name(names[#[trigger] all[k]])
        &&& forall|k: int|
            0 <= k < all.len() && 0 <= (#[trigger] all[k]) < children.len() && !is_hidden_name(
                names[all[k]],
            ) ==> keeps_glyphs(children[all[k]], limit, depth + 1)
    } else {
        true
    }
}

/// Hiding, below one entry, to the letter: where the drawing with hidden
/// entries is complete and hiding leaves the glyphs as they are, the lines
/// without hidden entries are those of the other with the hidden lines,
/// and the lines below them, taken out.
pub proof fn lemma_hidden_rows_taken_out_below(
    e: EntryModel,
    limit: nat,
    prefix: Seq<char>,
    depth: nat,
)
    requires
        rows_below(e, true, limit, prefix, depth).complete,
        keeps_glyphs(e, limit, depth),
    ensures
        rows_below(e, false, limit, prefix, depth).complete,
        rows_below(e, false, limit, prefix, depth).rows == without_hidden_rows(
            rows_below(e, true, limit, prefix, depth).rows,
            None,
        ),
    decreases e, 0nat,
{
    if e.is_dir() && depth < limit {
        match e.listing {
            None => {},
            Some(children) => {
                let names = names_of(children);
                let all = scan_order(names, true);
                lemma_scan_order(names, true);
                lemma_hidden_left_out(names);
                lemma_hidden_listing_rows_taken_out(children, all, 0, limit, prefix, depth + 1);
            },
        }
    }
}

/// The same, for the lines of a directory's entries from the `k`-th on.
proof fn lemma_hidden_listing_rows_taken_out(
    children: Seq<EntryModel>,
    all: Seq<int>,
    k: int,
    limit: nat,
    prefix: Seq<char>,
    depth: nat,
)
    requires
        1 <= depth <= limit,
        0 <= k <= all.len(),
        forall|j: int| 0 <= j < all.len() ==> 0 <= #[trigger] all[j] < children.len(),
        rows_of_listing(children, all, k, true, limit, prefix, depth).complete,
        all.len() > 0 && is_hidden_name(names_of(children)[all.last()]) ==> forall|n: int|
            0 <= n < all.len() ==> is_hidden_name(names_of(children)[#[trigger] all[n]]),
        forall|n: int|
            0 <= n < all.len() && !is_hidden_name(names_of(children)[#[trigger] all[n]])
                ==> keeps_glyphs(children[all[n]], limit, depth),
    ensures
        ({
            let keep = is_visible_place(names_of(children));
            let kept = all.filter(keep);
            let j = all.take(k).filter(keep).len() as int;
            let hidden_off = rows_of_listing(children, kept, j, false, limit, prefix, depth);
            let hidden_on = rows_of_listing(children, all, k, true, limit, prefix, depth);
            &&& hidden_off.complete
            &&& hidden_off.rows == without_hidden_rows(hidden_on.rows, None)
        }),
    decreases children, all.len() - k,
{
    let names = names_of(children);
    let keep = is_visible_place(names);
    let hidden_on = rows_of_listing(children, all, k, true, limit, prefix, depth);
    if k == all.len() {
        assert(all.take(k) =~= all);
    } else {
        let i = all[k];
        let child = children[i];
        let behind = all.skip(k + 1);
        assert(all.take(k + 1) =~= all.take(k).push(i));
        all.take(k).lemma_filter_push(i, keep);
        assert(all =~= all.take(k + 1) + behind);
        Seq::filter_distributes_over_add(all.take(k + 1), behind, keep);
        let last = k == all.len() - 1;
        let inner = prefix + continuation(last);
        let below_on = rows_below(child, true, limit, inner, depth);
        let rest_on = rows_of_listing(children, all, k + 1, true, limit, prefix, depth);
        lemma_hidden_listing_rows_taken_out(children, all, k + 1, limit, prefix, depth);
        lemma_rows_below_fit(child, true, limit, inner, depth);
        lemma_label_hidden(child);
        let tail = below_on.rows + rest_on.rows;
        assert(hidden_on.rows.drop_first() =~= tail);
        if keep(i) {
            // The entry is the last one shown exactly if it is the last of all.
            if !last {
                behind.lemma_filter_contains(keep, behind.len() - 1);
            }
            lemma_hidden_rows_taken_out_below(child, limit, inner, depth);
            lemma_cut_in_parts(below_on.rows, rest_on.rows, None);
        } else {
            lemma_cut_in_parts(below_on.rows, rest_on.rows, Some(depth));
            lemma_all_cut(below_on.rows, depth);
        }
    }
}

/// Hiding is leaving out and nothing more, to the letter: where the
/// drawing of a tree with its hidden entries is complete, and hiding
/// leaves the glyphs as they are, the lines without hidden entries are
/// exactly the lines of the other from which every line with a name that
/// starts with a dot is taken out together with the lines below it. The
/// root's own line stays whatever its name.
pub proof fn lemma_hidden_rows_taken_out(e: EntryModel, limit: nat)
    requires
        tree_rows(e, true, limit, Seq::empty(), 0).complete,
        keeps_glyphs(e, limit, 0),
    ensures
        tree_rows(e, false, limit, Seq::empty(), 0).complete,
        tree_rows(e, false, limit, Seq::empty(), 0).rows == without_hidden_rows(
            tree_rows(e, true, limit, Seq::empty(), 0).rows,
            None,
        ),
{
    let empty = Seq::<char>::empty();
    lemma_hidden_rows_taken_out_below(e, limit, empty, 0);
    let on = rows_below(e, true, limit, empty, 0).rows;
    let all_on = tree_rows(e, true, limit, empty, 0).rows;
    assert(all_on.drop_first() =~= on);
}

impl TreeModel {
    /// The tree without its hidden nodes: every node below the root whose
    /// name starts with a dot is taken out, with all that is below it.
    pub open spec fn without_hidden(self) -> TreeModel
        decreases self, 0nat,
    {
        TreeModel { children: visible_nodes(self.children, self.children.len()), ..self }
    }
}

/// Of the first `n` nodes those that are not hidden, each without its
/// hidden nodes.
pub open spec fn visible_nodes(nodes: Seq<TreeModel>, n: nat) -> Seq<TreeModel>
    decreases nodes, n,
{
    if n == 0 {
        Seq::empty()
    } else {
        let before = visible_nodes(nodes, (n - 1) as nat);
        if n - 1 < nodes.len() && !is_hidden_name(nodes[n - 1].name) {
            before.push(nodes[n - 1].without_hidden())
        } else {
            before
        }
    }
}

/// The visible ones of the first `n` nodes depend on those nodes only.
proof fn lemma_visible_nodes_of_first(a: Seq<TreeModel>, b: Seq<TreeModel>, n: nat)
    requires
        n <= a.len(),
        n <= b.len(),
        forall|j: int| 0 <= j < n ==> a[j] == b[j],
    ensures
        visible_nodes(a, n) == visible_nodes(b, n),
    decreases n,
{
    if n > 0 {
        lemma_visible_nodes_of_first(a, b, (n - 1) as nat);
    }
}

/// Hiding is leaving out and nothing more: where the tree with hidden
/// entries can be built, the tree without them is that tree with every
/// hidden node, and all that is below it, taken out.
pub proof fn lemma_hidden_nodes_left_out(e: EntryModel, limit: nat, depth: nat)
    requires
        depth <= limit,
        tree_of(e, true, limit, depth) is Some,
    ensures
        tree_of(e, false, limit, depth) == Some(tree_of(e, true, limit, depth)->0.without_hidden()),
    decreases e, 0nat,
{
    if e.is_dir() && depth < limit {
        match e.listing {
            None => {},
            Some(children) => {
                let names = names_of(children);
                let all = scan_order(names, true);
                lemma_scan_order(names, true);
                lemma_hidden_left_out(names);
                lemma_hidden_listing_left_out(children, all, all.len(), limit, depth + 1);
                assert(all.take(all.len() as int) =~= all);
            },
        }
    }
}

/// The same, for the entries at the first `n` places of the order of a
/// listing.
proof fn lemma_hidden_listing_left_out(
    children: Seq<EntryModel>,
    all: Seq<int>,
    n: nat,
    limit: nat,
    depth: nat,
)
    requires
        depth <= limit,
        n <= all.len(),
        forall|j: int| 0 <= j < all.len() ==> 0 <= #[trigger] all[j] < children.len(),
        trees_of_listing(children, all, all.len(), true, limit, depth) is Some,
    ensures
        ({
            let kept = all.take(n as int).filter(is_visible_place(names_of(children)));
            let trees = trees_of_listing(children, all, n, true, limit, depth);
            &&& trees is Some
            &&& trees->0.len() == n
            &&& trees_of_listing(children, kept, kept.len(), false, limit, depth) == Some(
                visible_nodes(trees->0, n),
            )
        }),
    decreases children, n,
{
    let names = names_of(children);
    let keep = is_visible_place(names);
    let kept = all.take(n as int).filter(keep);
    if trees_of_listing(children, all, n, true, limit, depth) is None {
        lemma_trees_fail_later(children, all, n, all.len(), true, limit, depth);
    }
    let trees = trees_of_listing(children, all, n, true, limit, depth)->0;
    if n > 0 {
        let fewer = (n - 1) as nat;
        lemma_hidden_listing_left_out(children, all, fewer, limit, depth);
        let before = all.take(fewer as int);
        let kept_before = before.filter(keep);
        let trees_before = trees_of_listing(children, all, fewer, true, limit, depth)->0;
        let i = all[n - 1];
        assert(all.take(n as int) =~= before.push(i));
        before.lemma_filter_push(i, keep);
        let child = children[i];
        let tree = tree_of(child, true, limit, depth)->0;
        assert(trees == trees_before.push(tree));
        lemma_visible_nodes_of_first(trees, trees_before, fewer);
        if keep(i) {
            lemma_trees_of_first(children, kept, kept_before, kept_before.len(), false, limit, depth);
            lemma_hidden_nodes_left_out(child, limit, depth);
        }
    }
}

} // verus!
