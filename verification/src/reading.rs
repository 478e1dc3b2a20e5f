//! The order in which directories were read does not show in what is
//! drawn: one tree, read twice, gives one drawing.

use vstd::prelude::*;
use crate::entry::names_of;
use crate::entry::EntryModel;
use crate::render::rows_below;
use crate::render::rows_of_listing;
use crate::render::tree_rows;
use crate::scan::distinct_names;
use crate::scan::lemma_ordered_unique;
use crate::scan::lemma_orders_are_strict;
use crate::scan::name_order;
use crate::scan::lemma_scan_order;
use crate::scan::scan_order;
use crate::tree::tree_of;
use crate::tree::trees_of_listing;

verus! {

/// Whether `i` is a place of a listing.
pub open spec fn is_place(listing: Seq<EntryModel>, i: int) -> bool {
    0 <= i < listing.len()
}

/// Whether two trees are one tree read in two orders: the entries agree in
/// name, in what the metadata queries said and in where a link points, and
/// each entry of either listing has its like in the other, all the way
/// down.
pub open spec fn same_tree(a: EntryModel, b: EntryModel) -> bool
    decreases a,
{
    &&& a.name == b.name
    &&& a.facts == b.facts
    &&& a.link_target == b.link_target
    &&& match a.listing {
        None => b.listing is None,
        Some(x) => {
            &&& b.listing is Some
            &&& forall|i: int| #[trigger]
                is_place(x, i) ==> exists|j: int|
                    0 <= j < b.listing->0.len() && same_tree(x[i], #[trigger] b.listing->0[j])
            &&& forall|j: int| #[trigger]
                is_place(b.listing->0, j) ==> exists|i: int|
                    0 <= i < x.len() && same_tree(#[trigger] x[i], b.listing->0[j])
        },
    }
}

/// Whether each entry of either listing has its like in the other.
pub open spec fn same_listing(x: Seq<EntryModel>, y: Seq<EntryModel>) -> bool {
    &&& forall|i: int| #[trigger]
        is_place(x, i) ==> exists|j: int| 0 <= j < y.len() && same_tree(x[i], #[trigger] y[j])
    &&& forall|j: int| #[trigger]
        is_place(y, j) ==> exists|i: int| 0 <= i < x.len() && same_tree(#[trigger] x[i], y[j])
}

/// Whether, all the way down, no directory holds two entries of one name.
pub open spec fn well_named(e: EntryModel) -> bool
    decreases e,
{
    match e.listing {
        None => true,
        Some(x) => distinct_names(x) && forall|i: int|
            0 <= i < x.len() ==> well_named(#[trigger] x[i]),
    }
}

/// The names at the places of an order.
spec fn names_in_order(names: Seq<Seq<char>>, order: Seq<int>) -> Seq<Seq<char>> {
    Seq::new(order.len(), |k: int| names[order[k]])
}

/// A name that is listed for one of two like listings is listed for the
/// other.
proof fn lemma_listed_in_both(
    x: Seq<EntryModel>,
    y: Seq<EntryModel>,
    show_hidden: bool,
    n: Seq<char>,
)
    requires
        forall|i: int| #[trigger]
            is_place(x, i) ==> exists|j: int| 0 <= j < y.len() && same_tree(x[i], #[trigger] y[j]),
        names_in_order(names_of(x), scan_order(names_of(x), show_hidden)).contains(n),
    ensures
        names_in_order(names_of(y), scan_order(names_of(y), show_hidden)).contains(n),
{
    let xn = names_of(x);
    let yn = names_of(y);
    let ox = scan_order(xn, show_hidden);
    let oy = scan_order(yn, show_hidden);
    lemma_scan_order(xn, show_hidden);
    lemma_scan_order(yn, show_hidden);
    let listed = names_in_order(xn, ox);
    let k = choose|k: int| 0 <= k < listed.len() && listed[k] == n;
    let i = ox[k];
    assert(is_place(x, i));
    let j = choose|j: int| 0 <= j < y.len() && same_tree(x[i], #[trigger] y[j]);
    assert(oy.contains(j));
    let m = choose|m: int| 0 <= m < oy.len() && oy[m] == j;
    assert(names_in_order(yn, oy)[m] == n);
}

/// Of two like listings the same number of entries is shown, and the
/// entries shown at one place of either order are each other's like.
proof fn lemma_orders_match(x: Seq<EntryModel>, y: Seq<EntryModel>, show_hidden: bool)
    requires
        distinct_names(x),
        distinct_names(y),
        same_listing(x, y),
    ensures
        scan_order(names_of(x), show_hidden).len() == scan_order(names_of(y), show_hidden).len(),
        forall|k: int|
            0 <= k < scan_order(names_of(x), show_hidden).len() ==> {
                let i = #[trigger] scan_order(names_of(x), show_hidden)[k];
                let j = scan_order(names_of(y), show_hidden)[k];
                &&& 0 <= i < x.len()
                &&& 0 <= j < y.len()
                &&& same_tree(x[i], y[j])
            },
{
    let xn = names_of(x);
    let yn = names_of(y);
    let ox = scan_order(xn, show_hidden);
    let oy = scan_order(yn, show_hidden);
    let lx = names_in_order(xn, ox);
    let ly = names_in_order(yn, oy);
    lemma_scan_order(xn, show_hidden);
    lemma_scan_order(yn, show_hidden);
    assert forall|n: Seq<char>| lx.contains(n) <==> ly.contains(n) by {
        if lx.contains(n) {
            lemma_listed_in_both(x, y, show_hidden, n);
        }
        if ly.contains(n) {
            lemma_same_listing_symmetric(x, y);
            lemma_listed_in_both(y, x, show_hidden, n);
        }
    }
    lemma_orders_are_strict(xn);
    lemma_ordered_unique(lx, ly, name_order());
    assert forall|k: int| 0 <= k < ox.len() implies {
        let i = #[trigger] ox[k];
        let j = oy[k];
        &&& 0 <= i < x.len()
        &&& 0 <= j < y.len()
        &&& same_tree(x[i], y[j])
    } by {
        let i = ox[k];
        let j = oy[k];
        assert(lx[k] == ly[k]);
        assert(is_place(x, i));
        let m = choose|m: int| 0 <= m < y.len() && same_tree(x[i], #[trigger] y[m]);
        assert(m == j);
    }
}

/// If one tree is the like of another, the other is the like of the one.
pub proof fn lemma_same_tree_symmetric(a: EntryModel, b: EntryModel)
    requires
        same_tree(a, b),
    ensures
        same_tree(b, a),
    decreases a,
{
    match a.listing {
        None => {},
        Some(x) => {
            let y = b.listing->0;
            assert forall|j: int| #[trigger] is_place(y, j) implies exists|i: int|
                0 <= i < x.len() && same_tree(y[j], #[trigger] x[i]) by {
                let i = choose|i: int| 0 <= i < x.len() && same_tree(#[trigger] x[i], y[j]);
                lemma_same_tree_symmetric(x[i], y[j]);
            }
            assert forall|i: int| #[trigger] is_place(x, i) implies exists|j: int|
                0 <= j < y.len() && same_tree(#[trigger] y[j], x[i]) by {
                let j = choose|j: int| 0 <= j < y.len() && same_tree(x[i], #[trigger] y[j]);
                lemma_same_tree_symmetric(x[i], y[j]);
            }
        },
    }
}

/// If each entry of either listing has its like in the other, so it is
/// the other way round.
pub proof fn lemma_same_listing_symmetric(x: Seq<EntryModel>, y: Seq<EntryModel>)
    requires
        same_listing(x, y),
    ensures
        same_listing(y, x),
{
    assert forall|j: int| #[trigger] is_place(y, j) implies exists|i: int|
        0 <= i < x.len() && same_tree(y[j], #[trigger] x[i]) by {
        let i = choose|i: int| 0 <= i < x.len() && same_tree(#[trigger] x[i], y[j]);
        lemma_same_tree_symmetric(x[i], y[j]);
    }
    assert forall|i: int| #[trigger] is_place(x, i) implies exists|j: int|
        0 <= j < y.len() && same_tree(#[trigger] y[j], x[i]) by {
        let j = choose|j: int| 0 <= j < y.len() && same_tree(x[i], #[trigger] y[j]);
        lemma_same_tree_symmetric(x[i], y[j]);
    }
}

/// One tree read in two orders is drawn as the same lines below the root.
pub proof fn lemma_same_rows_below(
    a: EntryModel,
    b: EntryModel,
    show_hidden: bool,
    limit: nat,
    prefix: Seq<char>,
    depth: nat,
)
    requires
        same_tree(a, b),
        well_named(a),
        well_named(b),
    ensures
        rows_below(a, show_hidden, limit, prefix, depth) == rows_below(
            b,
            show_hidden,
            limit,
            prefix,
            depth,
        ),
    decreases a, 0nat,
{
    if a.is_dir() && depth < limit {
        match a.listing {
            None => {},
            Some(x) => {
                let y = b.listing->0;
                lemma_orders_match(x, y, show_hidden);
                lemma_same_listing_rows(
                    x,
                    y,
                    scan_order(names_of(x), show_hidden),
                    scan_order(names_of(y), show_hidden),
                    0,
                    show_hidden,
                    limit,
                    prefix,
                    depth + 1,
                );
            },
        }
    }
}

/// The same, for the lines of the entries from the `k`-th place on.
proof fn lemma_same_listing_rows(
    x: Seq<EntryModel>,
    y: Seq<EntryModel>,
    ox: Seq<int>,
    oy: Seq<int>,
    k: int,
    show_hidden: bool,
    limit: nat,
    prefix: Seq<char>,
    depth: nat,
)
    requires
        0 <= k,
        ox.len() == oy.len(),
        forall|n: int|
            0 <= n < ox.len() ==> 0 <= #[trigger] ox[n] < x.len() && 0 <= oy[n] < y.len()
                && same_tree(x[ox[n]], y[oy[n]]),
        forall|i: int| 0 <= i < x.len() ==> well_named(#[trigger] x[i]),
        forall|j: int| 0 <= j < y.len() ==> well_named(#[trigger] y[j]),
    ensures
        rows_of_listing(x, ox, k, show_hidden, limit, prefix, depth) == rows_of_listing(
            y,
            oy,
            k,
            show_hidden,
            limit,
            prefix,
            depth,
        ),
    decreases x, ox.len() - k,
{
    if k < ox.len() {
        let last = k == ox.len() - 1;
        let one = x[ox[k]];
        let other = y[oy[k]];
        lemma_same_rows_below(
            one,
            other,
            show_hidden,
            limit,
            prefix + crate::render::continuation(last),
            depth,
        );
        lemma_same_listing_rows(x, y, ox, oy, k + 1, show_hidden, limit, prefix, depth);
    }
}

/// The order in which the directories were read does not matter: one
/// tree, read twice, is drawn as the same lines, whatever the order in
/// which each directory's entries came, as long as no directory holds two
/// entries of one name.
pub proof fn lemma_same_drawing(a: EntryModel, b: EntryModel, show_hidden: bool, limit: nat)
    requires
        same_tree(a, b),
        well_named(a),
        well_named(b),
    ensures
        tree_rows(a, show_hidden, limit, Seq::empty(), 0) == tree_rows(
            b,
            show_hidden,
            limit,
            Seq::empty(),
            0,
        ),
{
    lemma_same_rows_below(a, b, show_hidden, limit, Seq::empty(), 0);
}

/// One tree read in two orders gives the same tree for the interactive
/// view.
pub proof fn lemma_same_tree_built(
    a: EntryModel,
    b: EntryModel,
    show_hidden: bool,
    limit: nat,
    depth: nat,
)
    requires
        same_tree(a, b),
        well_named(a),
        well_named(b),
    ensures
        tree_of(a, show_hidden, limit, depth) == tree_of(b, show_hidden, limit, depth),
    decreases a, 0nat,
{
    if a.is_dir() && depth < limit {
        match a.listing {
            None => {},
            Some(x) => {
                let y = b.listing->0;
                lemma_orders_match(x, y, show_hidden);
                let ox = scan_order(names_of(x), show_hidden);
                let oy = scan_order(names_of(y), show_hidden);
                lemma_same_trees_of_listing(
                    x,
                    y,
                    ox,
                    oy,
                    ox.len(),
                    show_hidden,
                    limit,
                    depth + 1,
                );
            },
        }
    }
}

/// The same, for the trees of the entries at the first `n` places.
proof fn lemma_same_trees_of_listing(
    x: Seq<EntryModel>,
    y: Seq<EntryModel>,
    ox: Seq<int>,
    oy: Seq<int>,
    n: nat,
    show_hidden: bool,
    limit: nat,
    depth: nat,
)
    requires
        n <= ox.len(),
        ox.len() == oy.len(),
        forall|k: int|
            0 <= k < ox.len() ==> 0 <= #[trigger] ox[k] < x.len() && 0 <= oy[k] < y.len()
                && same_tree(x[ox[k]], y[oy[k]]),
        forall|i: int| 0 <= i < x.len() ==> well_named(#[trigger] x[i]),
        forall|j: int| 0 <= j < y.len() ==> well_named(#[trigger] y[j]),
    ensures
        trees_of_listing(x, ox, n, show_hidden, limit, depth) == trees_of_listing(
            y,
            oy,
            n,
            show_hidden,
            limit,
            depth,
        ),
    decreases x, n,
{
    if n > 0 {
        lemma_same_trees_of_listing(x, y, ox, oy, (n - 1) as nat, show_hidden, limit, depth);
        lemma_same_tree_built(x[ox[n - 1]], y[oy[n - 1]], show_hidden, limit, depth);
    }
}

} // verus!
