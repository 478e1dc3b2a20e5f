//! The order of a listing: which entries are shown, and in which order.

use vstd::prelude::*;
use crate::entry::entry_models;
use crate::entry::names_of;
use crate::entry::EntryModel;
use crate::entry::FsEntry;
use crate::text::is_hidden;
use crate::text::is_hidden_name;
use crate::text::lemma_name_lt_strict_total;
use crate::text::name_less;
use crate::text::name_lt;

verus! {

/// Whether an entry of this name is shown.
pub open spec fn shows(name: Seq<char>, show_hidden: bool) -> bool {
    show_hidden || !is_hidden_name(name)
}

/// Whether the entry at `i` is listed before the entry at `j`: by name,
/// and, should two entries have one name, in the order in which they were
/// read.
pub open spec fn goes_before(names: Seq<Seq<char>>, i: int, j: int) -> bool {
    name_lt(names[i], names[j]) || (names[i] == names[j] && i < j)
}

/// An ordered sequence of places with one more place put in: behind every
/// place whose name is not above the new one's.
pub open spec fn insert_by_name(names: Seq<Seq<char>>, sorted: Seq<int>, i: int) -> Seq<int>
    decreases sorted.len(),
{
    if sorted.len() == 0 {
        seq![i]
    } else if name_lt(names[i], names[sorted.last()]) {
        insert_by_name(names, sorted.drop_last(), i).push(sorted.last())
    } else {
        sorted.push(i)
    }
}

/// The order of the entries among the first `n` of a listing.
pub open spec fn order_of_first(names: Seq<Seq<char>>, show_hidden: bool, n: nat) -> Seq<int>
    decreases n,
{
    if n == 0 {
        Seq::empty()
    } else {
        let before = order_of_first(names, show_hidden, (n - 1) as nat);
        if shows(names[n - 1], show_hidden) {
            insert_by_name(names, before, n - 1)
        } else {
            before
        }
    }
}

/// The places of the entries of a listing that are shown, in the order in
/// which they are shown: the one order of which `is_scan_of` holds.
pub open spec fn scan_order(names: Seq<Seq<char>>, show_hidden: bool) -> Seq<int> {
    order_of_first(names, show_hidden, names.len())
}

/// Whether a vector of places holds the given places.
pub open spec fn same_places(v: Seq<usize>, places: Seq<int>) -> bool {
    v.len() == places.len() && forall|k: int| 0 <= k < v.len() ==> v[k] as int == places[k]
}

/// Putting a place in by name puts it at the one position behind which
/// every name is above the new one and before which the next is not.
proof fn lemma_insert_position(names: Seq<Seq<char>>, sorted: Seq<int>, i: int, j: int)
    requires
        0 <= j <= sorted.len(),
        forall|k: int| j <= k < sorted.len() ==> name_lt(names[i], names[#[trigger] sorted[k]]),
        j > 0 ==> !name_lt(names[i], names[sorted[j - 1]]),
    ensures
        insert_by_name(names, sorted, i) == sorted.insert(j, i),
    decreases sorted.len(),
{
    if j < sorted.len() {
        lemma_insert_position(names, sorted.drop_last(), i, j);
    }
}

/// The places of the entries to show, in the order in which to show them:
/// hidden entries left out unless asked for, the rest by name. The result
/// is `scan_order` of the names, which is the one order that lists them.
pub fn scan(entries: &Vec<FsEntry>, show_hidden: bool) -> (order: Vec<usize>)
    ensures
        same_places(order@, scan_order(names_of(entry_models(entries@)), show_hidden)),
        is_scan_of(
            names_of(entry_models(entries@)),
            show_hidden,
            scan_order(names_of(entry_models(entries@)), show_hidden),
        ),
        forall|k: int| 0 <= k < order.len() ==> order@[k] < entries.len(),
{
    let ghost names = names_of(entry_models(entries@));
    let mut order: Vec<usize> = Vec::new();
    let mut i: usize = 0;
    while i < entries.len()
        invariant
            i <= entries.len(),
            names == names_of(entry_models(entries@)),
            same_places(order@, order_of_first(names, show_hidden, i as nat)),
            forall|k: int| 0 <= k < order.len() ==> order@[k] < i,
        decreases entries.len() - i,
    {
        if show_hidden || !is_hidden(entries[i].name.as_str()) {
            let ghost before = order_of_first(names, show_hidden, i as nat);
            let mut j: usize = order.len();
            while j > 0 && name_less(entries[i].name.as_str(), entries[order[j - 1]].name.as_str())
                invariant
                    j <= order.len(),
                    i < entries.len(),
                    names == names_of(entry_models(entries@)),
                    same_places(order@, before),
                    forall|k: int| 0 <= k < order.len() ==> order@[k] < i,
                    forall|k: int|
                        j <= k < before.len() ==> name_lt(
                            names[i as int],
                            names[#[trigger] before[k]],
                        ),
                decreases j,
            {
                j -= 1;
            }
            proof {
                lemma_insert_position(names, before, i as int, j as int);
            }
            order.insert(j, i);
        }
        i += 1;
    }
    proof {
        lemma_scan_order(names, show_hidden);
    }
    order
}

/// Whether the places stand in the order in which they are listed.
pub open spec fn is_ordered(names: Seq<Seq<char>>, order: Seq<int>) -> bool {
    forall|p: int, q: int|
        0 <= p < q < order.len() ==> goes_before(names, #[trigger] order[p], #[trigger] order[q])
}

/// Where a place is put in by name: behind the last place whose name is
/// not above the new one's.
pub open spec fn insert_place(names: Seq<Seq<char>>, sorted: Seq<int>, i: int) -> int
    decreases sorted.len(),
{
    if sorted.len() == 0 {
        0
    } else if name_lt(names[i], names[sorted.last()]) {
        insert_place(names, sorted.drop_last(), i)
    } else {
        sorted.len() as int
    }
}

/// Putting a place in by name is inserting it at `insert_place`.
pub proof fn lemma_insert_place(names: Seq<Seq<char>>, sorted: Seq<int>, i: int)
    ensures
        0 <= insert_place(names, sorted, i) <= sorted.len(),
        forall|k: int|
            insert_place(names, sorted, i) <= k < sorted.len() ==> name_lt(
                names[i],
                names[#[trigger] sorted[k]],
            ),
        insert_place(names, sorted, i) > 0 ==> !name_lt(
            names[i],
            names[sorted[insert_place(names, sorted, i) - 1]],
        ),
        insert_by_name(names, sorted, i) == sorted.insert(insert_place(names, sorted, i), i),
    decreases sorted.len(),
{
    let j = insert_place(names, sorted, i);
    if sorted.len() > 0 && name_lt(names[i], names[sorted.last()]) {
        let front = sorted.drop_last();
        lemma_insert_place(names, front, i);
        assert forall|k: int| j <= k < sorted.len() implies name_lt(
            names[i],
            names[#[trigger] sorted[k]],
        ) by {
            if k < front.len() {
                assert(front[k] == sorted[k]);
            }
        }
    }
}

/// A place that is not listed before another one, by name, is listed
/// behind every place that the other one is listed behind.
proof fn lemma_not_above(names: Seq<Seq<char>>, a: int, b: int, c: int)
    requires
        goes_before(names, a, b) || a == b,
        !name_lt(names[c], names[b]),
    ensures
        !name_lt(names[c], names[a]),
{
    lemma_name_lt_strict_total(names[c], names[a], names[b]);
}

/// An ordered sequence stays ordered when a place greater than all of its
/// places is put in by name.
proof fn lemma_insert_ordered(names: Seq<Seq<char>>, sorted: Seq<int>, i: int)
    requires
        is_ordered(names, sorted),
        forall|k: int| 0 <= k < sorted.len() ==> #[trigger] sorted[k] < i,
    ensures
        is_ordered(names, insert_by_name(names, sorted, i)),
{
    let j = insert_place(names, sorted, i);
    lemma_insert_place(names, sorted, i);
    let r = sorted.insert(j, i);
    assert forall|p: int, q: int| 0 <= p < q < r.len() implies goes_before(
        names,
        #[trigger] r[p],
        #[trigger] r[q],
    ) by {
        if q == j {
            lemma_not_above(names, sorted[p], sorted[j - 1], i);
            lemma_name_lt_strict_total(names[sorted[p]], names[i], names[i]);
        }
    }
}

/// What `order_of_first` is: the places among the first `n` whose entries
/// are shown, each once, in the order in which they are listed.
pub proof fn lemma_order_of_first(names: Seq<Seq<char>>, show_hidden: bool, n: nat)
    ensures
        forall|k: int|
            0 <= k < order_of_first(names, show_hidden, n).len() ==> 0 <= (
            #[trigger] order_of_first(names, show_hidden, n)[k]) < n && shows(
                names[order_of_first(names, show_hidden, n)[k]],
                show_hidden,
            ),
        forall|i: int|
            0 <= i < n && shows(names[i], show_hidden) ==> order_of_first(
                names,
                show_hidden,
                n,
            ).contains(i),
        is_ordered(names, order_of_first(names, show_hidden, n)),
    decreases n,
{
    if n > 0 {
        let before = order_of_first(names, show_hidden, (n - 1) as nat);
        lemma_order_of_first(names, show_hidden, (n - 1) as nat);
        let r = order_of_first(names, show_hidden, n);
        if shows(names[n - 1], show_hidden) {
            let j = insert_place(names, before, n - 1);
            lemma_insert_place(names, before, n - 1);
            lemma_insert_ordered(names, before, n - 1);
            assert forall|i: int| 0 <= i < n && shows(names[i], show_hidden) implies r.contains(
                i,
            ) by {
                if i == n - 1 {
                    assert(r[j] == i);
                } else {
                    assert(before.contains(i));
                    let k = choose|k: int| 0 <= k < before.len() && before[k] == i;
                    if k < j {
                        assert(r[k] == i);
                    } else {
                        assert(r[k + 1] == i);
                    }
                }
            }
        }
    }
}

/// What the order of a listing is: every place in it is the place of an
/// entry that is shown; the place of every entry that is shown is in it;
/// and the places stand by name, those of one name in the order in which
/// they were read. No place stands in it twice.
pub proof fn lemma_scan_order(names: Seq<Seq<char>>, show_hidden: bool)
    ensures
        forall|k: int|
            0 <= k < scan_order(names, show_hidden).len() ==> 0 <= (#[trigger] scan_order(
                names,
                show_hidden,
            )[k]) < names.len() && shows(names[scan_order(names, show_hidden)[k]], show_hidden),
        forall|i: int|
            0 <= i < names.len() && shows(names[i], show_hidden) ==> scan_order(
                names,
                show_hidden,
            ).contains(i),
        is_ordered(names, scan_order(names, show_hidden)),
        scan_order(names, show_hidden).no_duplicates(),
        is_scan_of(names, show_hidden, scan_order(names, show_hidden)),
{
    lemma_order_of_first(names, show_hidden, names.len());
    let r = scan_order(names, show_hidden);
    assert forall|p: int, q: int| 0 <= p < r.len() && 0 <= q < r.len() && p != q implies r[p]
        != r[q] by {
        lemma_name_lt_strict_total(names[r[p]], names[r[q]], names[r[q]]);
    }
}

/// The places whose entries are not hidden.
pub open spec fn is_visible_place(names: Seq<Seq<char>>) -> spec_fn(int) -> bool {
    |i: int| !is_hidden_name(names[i])
}

/// Putting a place in by name and then leaving places out is leaving them
/// out first and then putting the place in, if it is kept.
proof fn lemma_filter_insert(
    names: Seq<Seq<char>>,
    sorted: Seq<int>,
    i: int,
    keep: spec_fn(int) -> bool,
)
    requires
        is_ordered(names, sorted),
    ensures
        insert_by_name(names, sorted, i).filter(keep) == if keep(i) {
            insert_by_name(names, sorted.filter(keep), i)
        } else {
            sorted.filter(keep)
        },
    decreases sorted.len(),
{
    if sorted.len() == 0 {
        Seq::<int>::empty().lemma_filter_push(i, keep);
    } else {
        let front = sorted.drop_last();
        let last = sorted.last();
        assert(sorted =~= front.push(last));
        front.lemma_filter_push(last, keep);
        if name_lt(names[i], names[last]) {
            lemma_filter_insert(names, front, i, keep);
            let ins = insert_by_name(names, front, i);
            ins.lemma_filter_push(last, keep);
            if keep(i) && keep(last) {
                assert(front.filter(keep).push(last).drop_last() =~= front.filter(keep));
            }
        } else {
            sorted.lemma_filter_push(i, keep);
            let kept = sorted.filter(keep);
            if keep(i) && kept.len() > 0 {
                sorted.lemma_filter_contains_rev(keep, kept.last());
                let k = choose|k: int| 0 <= k < sorted.len() && sorted[k] == kept.last();
                lemma_not_above(names, sorted[k], last, i);
            }
        }
    }
}

/// Among the first `n` entries, the order without hidden entries is the
/// order of all of them with the places of hidden entries left out.
proof fn lemma_hidden_left_out_of_first(names: Seq<Seq<char>>, n: nat)
    ensures
        order_of_first(names, false, n) == order_of_first(names, true, n).filter(
            is_visible_place(names),
        ),
    decreases n,
{
    let keep = is_visible_place(names);
    if n > 0 {
        lemma_hidden_left_out_of_first(names, (n - 1) as nat);
        lemma_order_of_first(names, true, (n - 1) as nat);
        lemma_filter_insert(names, order_of_first(names, true, (n - 1) as nat), n - 1, keep);
    }
}

/// Hiding is leaving out and nothing more: the order of a listing without
/// its hidden entries is the order of the whole listing with the places of
/// the hidden entries taken out.
pub proof fn lemma_hidden_left_out(names: Seq<Seq<char>>)
    ensures
        scan_order(names, false) == scan_order(names, true).filter(is_visible_place(names)),
{
    lemma_hidden_left_out_of_first(names, names.len());
}

/// Whether no two entries of a listing have one name.
pub open spec fn distinct_names(entries: Seq<EntryModel>) -> bool {
    forall|i: int, j: int|
        0 <= i < j < entries.len() ==> (#[trigger] entries[i]).name != (#[trigger] entries[j]).name
}

/// The entries of a listing that are shown, in the order in which they are
/// shown.
pub open spec fn shown_entries(entries: Seq<EntryModel>, show_hidden: bool) -> Seq<EntryModel> {
    let order = scan_order(names_of(entries), show_hidden);
    Seq::new(order.len(), |k: int| entries[order[k]])
}

/// Whether each entry's name is below the name of the next.
pub open spec fn ascending_names(entries: Seq<EntryModel>) -> bool {
    forall|p: int, q: int|
        0 <= p < q < entries.len() ==> name_lt(
            (#[trigger] entries[p]).name,
            (#[trigger] entries[q]).name,
        )
}

/// The entries shown are those of the listing that are not left out, and
/// where no two entries have one name they stand in ascending order.
pub proof fn lemma_shown_entries(entries: Seq<EntryModel>, show_hidden: bool)
    ensures
        forall|e: EntryModel|
            shown_entries(entries, show_hidden).contains(e) <==> entries.contains(e) && shows(
                e.name,
                show_hidden,
            ),
        distinct_names(entries) ==> ascending_names(shown_entries(entries, show_hidden)),
{
    let names = names_of(entries);
    let order = scan_order(names, show_hidden);
    let shown = shown_entries(entries, show_hidden);
    lemma_scan_order(names, show_hidden);
    assert forall|e: EntryModel| entries.contains(e) && shows(e.name, show_hidden) implies shown.contains(
        e,
    ) by {
        let i = choose|i: int| 0 <= i < entries.len() && entries[i] == e;
        assert(order.contains(i));
        let k = choose|k: int| 0 <= k < order.len() && order[k] == i;
        assert(shown[k] == e);
    }
}

/// Whether each value stands before every value that follows it.
pub open spec fn ordered_by<T>(values: Seq<T>, before: spec_fn(T, T) -> bool) -> bool {
    forall|p: int, q: int|
        0 <= p < q < values.len() ==> before(#[trigger] values[p], #[trigger] values[q])
}

/// Whether of two values at most one stands before the other, and none
/// before itself.
pub open spec fn is_strict<T>(before: spec_fn(T, T) -> bool) -> bool {
    forall|a: T, b: T| #[trigger] before(a, b) ==> !before(b, a)
}

/// Two sequences in one strict order that hold the same values are one
/// sequence.
pub proof fn lemma_ordered_unique<T>(x: Seq<T>, y: Seq<T>, before: spec_fn(T, T) -> bool)
    requires
        is_strict(before),
        ordered_by(x, before),
        ordered_by(y, before),
        forall|e: T| x.contains(e) <==> y.contains(e),
    ensures
        x == y,
    decreases x.len(),
{
    if x.len() == 0 {
        if y.len() > 0 {
            assert(y.contains(y[0]));
        }
    } else {
        let lx = x.last();
        assert(y.contains(lx));
        let ly = y.last();
        assert(x.contains(ly));
        let fx = x.drop_last();
        let fy = y.drop_last();
        assert forall|e: T| fx.contains(e) <==> fy.contains(e) by {
            if fx.contains(e) {
                assert(x.contains(e));
                let q = choose|q: int| 0 <= q < y.len() && y[q] == e;
                assert(fy[q] == e);
            }
            if fy.contains(e) {
                assert(y.contains(e));
                let q = choose|q: int| 0 <= q < x.len() && x[q] == e;
                assert(fx[q] == e);
            }
        }
        lemma_ordered_unique(fx, fy, before);
        assert(y =~= fy.push(ly));
    }
}

/// The order of names, as a relation.
pub open spec fn name_order() -> spec_fn(Seq<char>, Seq<char>) -> bool {
    |a: Seq<char>, b: Seq<char>| name_lt(a, b)
}

/// The order of entries by their names, as a relation.
pub open spec fn entry_order() -> spec_fn(EntryModel, EntryModel) -> bool {
    |a: EntryModel, b: EntryModel| name_lt(a.name, b.name)
}

/// The order in which the places of a listing are listed, as a relation.
pub open spec fn place_order(names: Seq<Seq<char>>) -> spec_fn(int, int) -> bool {
    |i: int, j: int| goes_before(names, i, j)
}

/// The three orders are strict.
pub proof fn lemma_orders_are_strict(names: Seq<Seq<char>>)
    ensures
        is_strict(name_order()),
        is_strict(entry_order()),
        is_strict(place_order(names)),
{
    assert forall|a: Seq<char>, b: Seq<char>| #[trigger] name_order()(a, b) implies !name_order()(
        b,
        a,
    ) by {
        lemma_name_lt_strict_total(a, b, a);
    }
    assert forall|a: EntryModel, b: EntryModel| #[trigger]
        entry_order()(a, b) implies !entry_order()(b, a) by {
        lemma_name_lt_strict_total(a.name, b.name, a.name);
    }
    assert forall|i: int, j: int| #[trigger] place_order(names)(i, j) implies !place_order(names)(
        j,
        i,
    ) by {
        lemma_name_lt_strict_total(names[i], names[j], names[i]);
    }
}

/// Whether `order` lists a listing: it holds the place of every entry that
/// is shown, and no other place, and the places stand by name, those of
/// one name in the order in which they were read.
pub open spec fn is_scan_of(names: Seq<Seq<char>>, show_hidden: bool, order: Seq<int>) -> bool {
    &&& forall|k: int|
        0 <= k < order.len() ==> 0 <= #[trigger] order[k] < names.len() && shows(
            names[order[k]],
            show_hidden,
        )
    &&& forall|i: int| 0 <= i < names.len() && shows(names[i], show_hidden) ==> order.contains(i)
    &&& is_ordered(names, order)
}

/// There is one order that lists a listing, and `scan_order` is it.
pub proof fn lemma_scan_order_is_the_one(names: Seq<Seq<char>>, show_hidden: bool, order: Seq<int>)
    requires
        is_scan_of(names, show_hidden, order),
    ensures
        order == scan_order(names, show_hidden),
{
    lemma_scan_order(names, show_hidden);
    lemma_orders_are_strict(names);
    lemma_ordered_unique(order, scan_order(names, show_hidden), place_order(names));
}

/// The order in which a directory is read does not matter: two listings
/// that hold the same entries, none of them two of one name, are shown as
/// the same entries in the same order.
pub proof fn lemma_read_order_does_not_matter(
    a: Seq<EntryModel>,
    b: Seq<EntryModel>,
    show_hidden: bool,
)
    requires
        distinct_names(a),
        distinct_names(b),
        forall|e: EntryModel| a.contains(e) <==> b.contains(e),
    ensures
        shown_entries(a, show_hidden) == shown_entries(b, show_hidden),
{
    lemma_shown_entries(a, show_hidden);
    lemma_shown_entries(b, show_hidden);
    let x = shown_entries(a, show_hidden);
    let y = shown_entries(b, show_hidden);
    assert forall|e: EntryModel| x.contains(e) <==> y.contains(e) by {
        assert(a.contains(e) <==> b.contains(e));
    }
    let before = entry_order();
    lemma_orders_are_strict(names_of(a));
    lemma_ordered_unique(x, y, before);
}

} // verus!
