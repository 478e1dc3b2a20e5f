//! The tree as lines of text, drawn depth first.

use vstd::prelude::*;
use vstd::string::*;
use crate::classify::class_of;
use crate::classify::classify;
use crate::classify::ColorClass;
use crate::classify::EntryFacts;
use crate::entry::entry_models;
use crate::entry::lemma_listing_model;
use crate::entry::names_of;
use crate::entry::EntryModel;
use crate::entry::FsEntry;
use crate::entry::Listing;
use crate::entry::TreeError;
use crate::scan::same_places;
use crate::scan::scan;
use crate::scan::scan_order;
use crate::scan::shows;
use crate::text::is_hidden;

verus! {

/// The glyphs in front of an entry's name: an elbow for the last entry of
/// its directory, a tee for every other.
pub open spec fn connector(last: bool) -> Seq<char> {
    if last {
        "└── "@
    } else {
        "├── "@
    }
}

/// What the lines below an entry begin with, at that entry's level: blanks
/// below the last entry of a directory, a vertical bar below every other.
pub open spec fn continuation(last: bool) -> Seq<char> {
    if last {
        "    "@
    } else {
        "│   "@
    }
}

/// The glyphs in front of an entry's name.
pub fn connector_str(last: bool) -> (r: &'static str)
    ensures
        r@ == connector(last),
{
    if last {
        "└── "
    } else {
        "├── "
    }
}

/// What the lines below an entry begin with, at that entry's level.
pub fn continuation_str(last: bool) -> (r: &'static str)
    ensures
        r@ == continuation(last),
{
    if last {
        "    "
    } else {
        "│   "
    }
}

/// One line of the drawing, as a mathematical value.
pub struct RowModel {
    pub prefix: Seq<char>,
    pub name: Seq<char>,
    pub class: ColorClass,
    pub depth: nat,
}

/// One line of the drawing.
#[derive(Debug)]
pub struct Row {
    /// The glyphs in front of the name.
    pub prefix: String,
    /// The name under which the entry is listed.
    pub name: String,
    /// The colour class of the entry.
    pub class: ColorClass,
    /// How many levels below the root the entry is.
    pub depth: usize,
}

impl View for Row {
    type V = RowModel;

    open spec fn view(&self) -> RowModel {
        RowModel { prefix: self.prefix@, name: self.name@, class: self.class, depth: self.depth as nat }
    }
}

impl RowModel {
    /// The text of the line.
    pub open spec fn text(self) -> Seq<char> {
        self.prefix + self.name
    }
}

impl Row {
    /// The text of the line, without colours.
    pub fn text(&self) -> (r: String)
        ensures
            r@ == self@.text(),
    {
        let mut line = String::from_str(self.prefix.as_str());
        line.append(self.name.as_str());
        line
    }
}

/// The lines that a vector of rows stands for.
pub open spec fn row_models(rows: Seq<Row>) -> Seq<RowModel> {
    Seq::new(rows.len(), |i: int| rows[i]@)
}

/// What a drawing came to: the lines drawn, and whether every directory
/// that had to be listed could be read. The lines of a drawing that is not
/// complete are those drawn before the first such directory was met.
pub struct Rendered {
    pub rows: Seq<RowModel>,
    pub complete: bool,
}

/// The depth below which nothing is listed. Without a limit it is the
/// greatest depth that can be counted.
pub open spec fn depth_limit(max_depth: Option<usize>) -> nat {
    match max_depth {
        Some(m) => m as nat,
        None => usize::MAX as nat,
    }
}

/// The line of the root: its bare name, with nothing in front.
pub open spec fn root_row(e: EntryModel) -> RowModel {
    RowModel { prefix: Seq::empty(), name: e.name, class: class_of(e.facts, e.name), depth: 0 }
}

/// The line of an entry at `depth`, below a directory whose lines begin
/// with `prefix`.
pub open spec fn child_row(child: EntryModel, prefix: Seq<char>, last: bool, depth: nat) -> RowModel {
    RowModel {
        prefix: prefix + connector(last),
        name: child.label(),
        class: class_of(child.facts, child.name),
        depth,
    }
}

/// The lines of everything below an entry at `depth`: none unless it is a
/// directory above the limit; else, for each entry shown, in order, its
/// line and then the lines below it.
pub open spec fn rows_below(
    e: EntryModel,
    show_hidden: bool,
    limit: nat,
    prefix: Seq<char>,
    depth: nat,
) -> Rendered
    decreases e, 0nat,
{
    if e.is_dir() && depth < limit {
        match e.listing {
            None => Rendered { rows: Seq::empty(), complete: false },
            Some(children) => rows_of_listing(
                children,
                scan_order(names_of(children), show_hidden),
                0,
                show_hidden,
                limit,
                prefix,
                depth + 1,
            ),
        }
    } else {
        Rendered { rows: Seq::empty(), complete: true }
    }
}

/// The lines of the entries of a listing from position `from` of `order`
/// on, each with the lines below it. The entries stand at `depth`.
pub open spec fn rows_of_listing(
    children: Seq<EntryModel>,
    order: Seq<int>,
    from: int,
    show_hidden: bool,
    limit: nat,
    prefix: Seq<char>,
    depth: nat,
) -> Rendered
    decreases children, order.len() - from,
{
    if 0 <= from < order.len() {
        let i = order[from];
        let last = from == order.len() - 1;
        if 0 <= i < children.len() {
            let child = children[i];
            let below = rows_below(child, show_hidden, limit, prefix + continuation(last), depth);
            let head = seq![child_row(child, prefix, last, depth)] + below.rows;
            if below.complete {
                let rest = rows_of_listing(
                    children,
                    order,
                    from + 1,
                    show_hidden,
                    limit,
                    prefix,
                    depth,
                );
                Rendered { rows: head + rest.rows, complete: rest.complete }
            } else {
                Rendered { rows: head, complete: false }
            }
        } else {
            rows_of_listing(children, order, from + 1, show_hidden, limit, prefix, depth)
        }
    } else {
        Rendered { rows: Seq::empty(), complete: true }
    }
}

/// The drawing of an entry that stands at `depth`: nothing below the
/// limit; else the root's own line where `depth` is 0, and the lines of
/// everything below the entry.
pub open spec fn tree_rows(
    e: EntryModel,
    show_hidden: bool,
    limit: nat,
    prefix: Seq<char>,
    depth: nat,
) -> Rendered {
    if depth > limit {
        Rendered { rows: Seq::empty(), complete: true }
    } else {
        let below = rows_below(e, show_hidden, limit, prefix, depth);
        if depth == 0 {
            Rendered { rows: seq![root_row(e)] + below.rows, complete: below.complete }
        } else {
            below
        }
    }
}

/// Draws the tree below `entry` into `out`, line after line: at depth 0
/// the entry's own name first, then, as far as `max_depth` allows, each
/// entry shown in its directory's order with everything below it. At the
/// first directory that had to be listed and could not be read the drawing
/// stops with `DirectoryUnreadable`; `out` then holds the lines drawn up to
/// there.
pub fn display_tree(
    entry: &FsEntry,
    show_hidden: bool,
    max_depth: Option<usize>,
    prefix: &str,
    current_depth: usize,
    out: &mut Vec<Row>,
) -> (r: Result<(), TreeError>)
    ensures
        row_models(final(out)@) == row_models(old(out)@) + tree_rows(
            entry@,
            show_hidden,
            depth_limit(max_depth),
            prefix@,
            current_depth as nat,
        ).rows,
        tree_rows(entry@, show_hidden, depth_limit(max_depth), prefix@, current_depth as nat).complete
            ==> r is Ok,
        !tree_rows(
            entry@,
            show_hidden,
            depth_limit(max_depth),
            prefix@,
            current_depth as nat,
        ).complete ==> r == Err::<(), TreeError>(TreeError::DirectoryUnreadable),
    decreases entry,
{
    let ghost before = row_models(out@);
    let ghost limit = depth_limit(max_depth);
    let bound: usize = match max_depth {
        Some(m) => m,
        None => usize::MAX,
    };
    proof {
        lemma_listing_model(*entry);
    }
    if current_depth > bound {
        return Ok(());
    }
    if current_depth == 0 {
        let row = Row {
            prefix: String::new(),
            name: String::from_str(entry.name.as_str()),
            class: classify(&entry.facts, entry.name.as_str()),
            depth: 0,
        };
        out.push(row);
    }
    if !(entry.is_dir() && current_depth < bound) {
        return Ok(());
    }
    let ghost start = row_models(out@);
    match &entry.listing {
        Listing::Unreadable => {
            Err(TreeError::DirectoryUnreadable)
        },
        Listing::Entries(v) => {
            let order = scan(v, show_hidden);
            let ghost children = entry_models(v@);
            let ghost places = scan_order(names_of(children), show_hidden);
            let ghost all = rows_of_listing(
                children,
                places,
                0,
                show_hidden,
                limit,
                prefix@,
                (current_depth + 1) as nat,
            );
            let ghost whole = tree_rows(entry@, show_hidden, limit, prefix@, current_depth as nat);
            let mut k: usize = 0;
            while k < order.len()
                invariant
                    k <= order.len(),
                    children == entry_models(v@),
                    entry.listing == Listing::Entries(*v),
                    before == row_models(old(out)@),
                    whole == tree_rows(entry@, show_hidden, limit, prefix@, current_depth as nat),
                    before + whole.rows == start + all.rows,
                    whole.complete == all.complete,
                    same_places(order@, places),
                    forall|j: int| 0 <= j < order.len() ==> order@[j] < v.len(),
                    limit == depth_limit(max_depth),
                    current_depth < limit,
                    current_depth < usize::MAX,
                    ({
                        let rest = rows_of_listing(
                            children,
                            places,
                            k as int,
                            show_hidden,
                            limit,
                            prefix@,
                            (current_depth + 1) as nat,
                        );
                        &&& all.complete == rest.complete
                        &&& start + all.rows == row_models(out@) + rest.rows
                    }),
                decreases order.len() - k,
            {
                let at: usize = order[k];
                let child = &v[at];
                let last = k == order.len() - 1;
                let mut line_prefix = String::from_str(prefix);
                line_prefix.append(connector_str(last));
                let row = Row {
                    prefix: line_prefix,
                    name: child.label(),
                    class: classify(&child.facts, child.name.as_str()),
                    depth: current_depth + 1,
                };
                out.push(row);
                let mut below_prefix = String::from_str(prefix);
                below_prefix.append(continuation_str(last));
                let below = display_tree(
                    child,
                    show_hidden,
                    max_depth,
                    below_prefix.as_str(),
                    current_depth + 1,
                    out,
                );
                match below {
                    Err(e) => {
                        return Err(e);
                    },
                    Ok(()) => {},
                }
                k += 1;
            }
            Ok(())
        },
    }
}

/// Whether a drawing looks into the listing of an entry at `depth`: the
/// entry has to be shown, which the root always is, and it has to be a
/// directory above the limit.
pub open spec fn needs_listing(
    name: Seq<char>,
    facts: EntryFacts,
    show_hidden: bool,
    limit: nat,
    depth: nat,
) -> bool {
    &&& depth == 0 || shows(name, show_hidden)
    &&& facts.metadata matches Some(meta) && meta.is_dir
    &&& depth < limit
}

/// Whether a drawing looks into the listing of an entry at `depth`. Who
/// reads the tree need not read the directories of which this is false.
pub fn wants_listing(
    name: &str,
    facts: &EntryFacts,
    show_hidden: bool,
    max_depth: Option<usize>,
    depth: usize,
) -> (r: bool)
    ensures
        r == needs_listing(name@, *facts, show_hidden, depth_limit(max_depth), depth as nat),
{
    let above_limit = match max_depth {
        Some(m) => depth < m,
        None => depth < usize::MAX,
    };
    let is_dir = match facts.metadata {
        Some(meta) => meta.is_dir,
        None => false,
    };
    (depth == 0 || show_hidden || !is_hidden(name)) && is_dir && above_limit
}

/// Whether a text begins with another.
pub open spec fn begins_with(text: Seq<char>, head: Seq<char>) -> bool {
    text.len() >= head.len() && text.subrange(0, head.len() as int) == head
}

/// Whether a line can stand below an entry at `depth` whose children's
/// lines begin with `prefix`: it is deeper, not deeper than the limit, and
/// its glyphs are `prefix` and then four columns for each level.
pub open spec fn fits_below(row: RowModel, prefix: Seq<char>, depth: nat, limit: nat) -> bool {
    &&& depth < row.depth <= limit
    &&& row.prefix.len() == prefix.len() + 4 * (row.depth - depth)
    &&& begins_with(row.prefix, prefix)
}

/// Each of the four glyph groups is four columns wide, the two connectors
/// differ, and what stands below a last entry is blank.
pub proof fn lemma_glyphs()
    ensures
        forall|last: bool| #[trigger] connector(last).len() == 4,
        forall|last: bool| #[trigger] continuation(last).len() == 4,
        connector(true) != connector(false),
        forall|k: int| 0 <= k < 4 ==> continuation(true)[k] == ' ',
        continuation(false)[0] == '│',
{
    reveal_strlit("└── ");
    reveal_strlit("├── ");
    reveal_strlit("    ");
    reveal_strlit("│   ");
    assert(connector(true)[0] != connector(false)[0]);
}

/// Every line below an entry fits below it.
pub proof fn lemma_rows_below_fit(
    e: EntryModel,
    show_hidden: bool,
    limit: nat,
    prefix: Seq<char>,
    depth: nat,
)
    ensures
        forall|k: int|
            0 <= k < rows_below(e, show_hidden, limit, prefix, depth).rows.len() ==> fits_below(
                #[trigger] rows_below(e, show_hidden, limit, prefix, depth).rows[k],
                prefix,
                depth,
                limit,
            ),
    decreases e, 0nat,
{
    if e.is_dir() && depth < limit {
        match e.listing {
            None => {},
            Some(children) => {
                let order = scan_order(names_of(children), show_hidden);
                lemma_rows_of_listing_fit(children, order, 0, show_hidden, limit, prefix, depth + 1);
                let all = rows_of_listing(children, order, 0, show_hidden, limit, prefix, depth + 1);
                assert(all == rows_below(e, show_hidden, limit, prefix, depth));
            },
        }
    }
}

/// Every line of the entries of a listing, and below them, fits below the
/// directory.
pub proof fn lemma_rows_of_listing_fit(
    children: Seq<EntryModel>,
    order: Seq<int>,
    from: int,
    show_hidden: bool,
    limit: nat,
    prefix: Seq<char>,
    depth: nat,
)
    requires
        1 <= depth <= limit,
    ensures
        forall|k: int|
            0 <= k < rows_of_listing(
                children,
                order,
                from,
                show_hidden,
                limit,
                prefix,
                depth,
            ).rows.len() ==> fits_below(
                #[trigger] rows_of_listing(
                    children,
                    order,
                    from,
                    show_hidden,
                    limit,
                    prefix,
                    depth,
                ).rows[k],
                prefix,
                (depth - 1) as nat,
                limit,
            ),
    decreases children, order.len() - from,
{
    let all = rows_of_listing(children, order, from, show_hidden, limit, prefix, depth);
    if 0 <= from < order.len() {
        let i = order[from];
        let last = from == order.len() - 1;
        lemma_rows_of_listing_fit(children, order, from + 1, show_hidden, limit, prefix, depth);
        let rest = rows_of_listing(children, order, from + 1, show_hidden, limit, prefix, depth);
        if 0 <= i < children.len() {
            let child = children[i];
            let inner = prefix + continuation(last);
            lemma_glyphs();
            lemma_rows_below_fit(child, show_hidden, limit, inner, depth);
            let below = rows_below(child, show_hidden, limit, inner, depth);
            let first = child_row(child, prefix, last, depth);
            let head = seq![first] + below.rows;
            assert(first.prefix.subrange(0, prefix.len() as int) =~= prefix);
            assert forall|k: int| 0 <= k < all.rows.len() implies fits_below(
                #[trigger] all.rows[k],
                prefix,
                (depth - 1) as nat,
                limit,
            ) by {
                if 0 < k < head.len() {
                    let r = below.rows[k - 1];
                    assert(r.prefix.subrange(0, prefix.len() as int) =~= r.prefix.subrange(
                        0,
                        inner.len() as int,
                    ).subrange(0, prefix.len() as int));
                    assert(inner.subrange(0, prefix.len() as int) =~= prefix);
                } else if k >= head.len() {
                    assert(all.rows[k] == rest.rows[k - head.len()]);
                }
            }
        }
    }
}

/// The depth limit holds: in the drawing of a tree no line stands deeper
/// than the limit, the root's own line stands at depth 0, and every line
/// has four columns of glyphs for each level of its depth.
pub proof fn lemma_depth_limit(e: EntryModel, show_hidden: bool, limit: nat)
    ensures
        forall|k: int|
            0 <= k < tree_rows(e, show_hidden, limit, Seq::empty(), 0).rows.len() ==> {
                let row = #[trigger] tree_rows(e, show_hidden, limit, Seq::empty(), 0).rows[k];
                &&& row.depth <= limit
                &&& row.prefix.len() == 4 * row.depth
                &&& (k == 0 <==> row.depth == 0)
            },
        tree_rows(e, show_hidden, limit, Seq::empty(), 0).rows.len() > 0,
        tree_rows(e, show_hidden, limit, Seq::empty(), 0).rows[0] == root_row(e),
{
    lemma_rows_below_fit(e, show_hidden, limit, Seq::empty(), 0);
}

/// The connectors of a directory's entries: of the entries of one
/// directory only the last is drawn with an elbow and every other with a
/// tee, and the lines below an entry go on, at the entry's level, with
/// blanks below the last entry and with a vertical bar below every other.
/// The lines looked at are those from the `k`-th entry of the directory
/// on: the first of them is the entry's own, and the lines below the entry
/// follow it.
pub proof fn lemma_sibling_connectors(
    children: Seq<EntryModel>,
    order: Seq<int>,
    k: int,
    show_hidden: bool,
    limit: nat,
    prefix: Seq<char>,
    depth: nat,
)
    requires
        0 <= k < order.len(),
        0 <= order[k] < children.len(),
        1 <= depth <= limit,
    ensures
        ({
            let last = k == order.len() - 1;
            let lines = rows_of_listing(children, order, k, show_hidden, limit, prefix, depth).rows;
            let below = rows_below(
                children[order[k]],
                show_hidden,
                limit,
                prefix + continuation(last),
                depth,
            ).rows;
            &&& lines.len() >= 1 + below.len()
            &&& lines[0].prefix == prefix + if last {
                "└── "@
            } else {
                "├── "@
            }
            &&& "└── "@ != "├── "@
            &&& forall|j: int|
                0 <= j < below.len() ==> #[trigger] lines[j + 1] == below[j] && begins_with(
                    below[j].prefix,
                    prefix + if last {
                        "    "@
                    } else {
                        "│   "@
                    },
                )
        }),
{
    let last = k == order.len() - 1;
    let inner = prefix + continuation(last);
    lemma_glyphs();
    lemma_rows_below_fit(children[order[k]], show_hidden, limit, inner, depth);
}

} // verus!
