//! The file browser: a tree of directories and files that is filled as the
//! user opens directories, and that steps aside while an editor runs.
//!
//! The tree lives in an arena. A directory is listed at most once; its
//! children then stand side by side at the end of the arena, directories
//! first and each kind by name. Drawing the tree, reading directories and
//! running the editor are the caller's part: it passes in what it read and
//! is told what to do next.

use vstd::prelude::*;
use crate::error::Failure;
use crate::order::{
    Ranked, arranged, is_stable_order, is_stable_sort, lemma_stable_sort_sorted, stable_order,
};
use crate::path::{join_path, joined};
use crate::text::{
    chars_of, find_last, last_index, lemma_last_index, lemma_lex_total, lemma_lex_transitive,
    lex_le, text_le,
};

verus! {

/// What stands at a path.
#[derive(Clone, Copy, Debug, PartialEq, Eq, Structural)]
pub enum Kind {
    /// A directory.
    Directory,
    /// A regular file.
    File,
    /// Anything else.
    Other,
}

/// One entry of a directory, as reading the directory gave it.
#[derive(Debug)]
pub struct Listed {
    /// The name of the entry, where it is valid text.
    pub name: Option<String>,
    /// The path of the entry.
    pub path: String,
    /// What the path leads to.
    pub kind: Kind,
}

/// What the browser shows of a directory or a file.
#[derive(Debug)]
pub struct TreeEntry {
    /// The name shown.
    pub name: String,
    /// The path of a directory; a file has none.
    pub dir: Option<String>,
}

/// How far a node has come in being listed.
#[derive(Clone, Copy, Debug, PartialEq, Eq, Structural)]
pub enum Listing {
    /// Nobody asked for its entries yet.
    Never,
    /// Its entries were asked for and have not come yet.
    Asked,
    /// Its entries are its children.
    Done,
}

/// A node of the tree.
#[derive(Debug)]
pub struct Node {
    /// What is shown.
    pub entry: TreeEntry,
    /// The node that holds this one; the root holds itself.
    pub parent: usize,
    /// The place of the first child in the arena.
    pub first_child: usize,
    /// The number of children.
    pub children: usize,
    /// Whether the children are shown.
    pub expanded: bool,
    /// Whether the directory has been listed.
    pub listing: Listing,
}

/// One line of the tree as it is drawn with every directory opened.
#[derive(Debug)]
pub struct Row {
    /// The node that the line shows.
    pub node: usize,
    /// The line of the node that holds this one; the first line holds itself.
    pub parent: usize,
    /// The text of the line.
    pub label: String,
    /// Whether the node is a directory.
    pub container: bool,
    /// Whether the directory shows its children.
    pub expanded: bool,
}

impl Ranked for TreeEntry {
    /// Directories stand before files, and each kind in dictionary order of
    /// the names.
    open spec fn le(&self, other: &Self) -> bool {
        if self.dir is Some == other.dir is Some {
            lex_le(self.name@, other.name@)
        } else {
            self.dir is Some
        }
    }

    proof fn lemma_total(a: &Self, b: &Self) {
        lemma_lex_total(a.name@, b.name@);
    }

    proof fn lemma_transitive(a: &Self, b: &Self, c: &Self) {
        if a.dir is Some == b.dir is Some && b.dir is Some == c.dir is Some {
            lemma_lex_transitive(a.name@, b.name@, c.name@);
        }
    }

    fn no_later_than(&self, other: &Self) -> (r: bool) {
        if self.dir.is_some() == other.dir.is_some() {
            text_le(self.name.as_str(), other.name.as_str())
        } else {
            self.dir.is_some()
        }
    }
}

impl TreeEntry {
    /// The text that stands for the entry on the screen.
    pub fn label(&self) -> (text: String)
        ensures
            text@ == self.name@,
    {
        self.name.clone()
    }

    /// A second entry like this one.
    pub fn duplicate(&self) -> (copy: TreeEntry)
        ensures
            copy == *self,
    {
        let dir = match &self.dir {
            Some(path) => Some(path.clone()),
            None => None,
        };
        TreeEntry { name: self.name.clone(), dir }
    }
}

/// Whether a directory entry is shown: directories and regular files are.
pub open spec fn is_shown(item: Listed) -> bool {
    item.kind != Kind::Other
}

/// Whether `entry` shows `item`: under its name, or under no name where that
/// is not valid text, and with its path if it is a directory.
pub open spec fn shows(entry: TreeEntry, item: Listed) -> bool {
    &&& entry.name@ == match item.name {
        Some(name) => name@,
        None => Seq::<char>::empty(),
    }
    &&& match entry.dir {
        Some(path) => item.kind == Kind::Directory && path@ == item.path@,
        None => item.kind == Kind::File,
    }
}

/// Whether `entries` show the directories and files of `listing`, one each
/// and in the same order.
pub open spec fn collected(listing: Seq<Listed>, entries: Seq<TreeEntry>) -> bool {
    let items = listing.filter(|item: Listed| is_shown(item));
    &&& entries.len() == items.len()
    &&& forall|k: int| 0 <= k < entries.len() ==> shows(#[trigger] entries[k], items[k])
}

/// Whether `sorted` holds the entries of `entries` with the directories
/// first and each kind by name, entries of one name in their given order.
pub open spec fn is_sorting(entries: Seq<TreeEntry>, sorted: Seq<TreeEntry>) -> bool {
    is_stable_sort(entries, sorted)
}

/// In sorted entries no file stands before a directory, and names within a
/// kind never fall.
pub proof fn lemma_sorting(entries: Seq<TreeEntry>, sorted: Seq<TreeEntry>, a: int, b: int)
    requires
        is_sorting(entries, sorted),
        0 <= a < b < sorted.len(),
    ensures
        sorted.len() == entries.len(),
        sorted[a].le(&sorted[b]),
        sorted[a].dir is None ==> sorted[b].dir is None,
        sorted[a].dir is Some == sorted[b].dir is Some ==> lex_le(sorted[a].name@, sorted[b].name@),
{
    lemma_stable_sort_sorted(entries, sorted, a, b);
}

/// Adds to `entries` one entry for every directory and every regular file of
/// `listing`, in its order. An entry whose name is not valid text is shown
/// without a name.
pub fn collect_entries(listing: Vec<Listed>, entries: &mut Vec<TreeEntry>)
    ensures
        final(entries)@.len() >= old(entries)@.len(),
        final(entries)@.take(old(entries)@.len() as int) == old(entries)@,
        collected(listing@, final(entries)@.skip(old(entries)@.len() as int)),
{
    let ghost start = entries@;
    let ghost pred = |item: Listed| is_shown(item);
    let mut i: usize = 0;
    proof {
        reveal(Seq::filter);
        assert(listing@.take(0) == Seq::<Listed>::empty());
        assert(entries@.take(start.len() as int) == start);
    }
    while i < listing.len()
        invariant
            i <= listing.len(),
            pred == |item: Listed| is_shown(item),
            entries@.len() >= start.len(),
            entries@.take(start.len() as int) == start,
            collected(listing@.take(i as int), entries@.skip(start.len() as int)),
        decreases listing.len() - i,
    {
        let ghost before = listing@.take(i as int);
        let ghost after = listing@.take(i + 1);
        let ghost had = entries@.skip(start.len() as int);
        proof {
            reveal(Seq::filter);
            assert(after.drop_last() == before);
            assert(after.last() == listing@[i as int]);
        }
        let item = &listing[i];
        let shown = match item.kind {
            Kind::Directory => Some(Some(item.path.clone())),
            Kind::File => Some(None),
            Kind::Other => None,
        };
        if let Some(dir) = shown {
            let name = match &item.name {
                Some(name) => name.clone(),
                None => String::new(),
            };
            entries.push(TreeEntry { name, dir });
            proof {
                let got = entries@.skip(start.len() as int);
                assert(got == had.push(entries@.last()));
                assert(after.filter(pred) == before.filter(pred).push(listing@[i as int]));
                assert(entries@.take(start.len() as int) =~= start);
                assert forall|k: int| 0 <= k < got.len() implies shows(
                    #[trigger] got[k],
                    after.filter(pred)[k],
                ) by {
                    if k < had.len() {
                        assert(got[k] == had[k]);
                    }
                }
            }
        } else {
            assert(after.filter(pred) == before.filter(pred));
        }
        i += 1;
    }
    assert(listing@.take(listing@.len() as int) == listing@);
}

/// The entries with the directories first and each kind by name.
pub fn sorted_entries(entries: &Vec<TreeEntry>) -> (sorted: Vec<TreeEntry>)
    ensures
        is_sorting(entries@, sorted@),
{
    let order = stable_order(entries);
    let mut sorted: Vec<TreeEntry> = Vec::new();
    let mut k: usize = 0;
    while k < order.len()
        invariant
            k <= order.len(),
            is_stable_order(entries@, order@),
            sorted@ == arranged(entries@, order@).take(k as int),
        decreases order.len() - k,
    {
        sorted.push(entries[order[k]].duplicate());
        k += 1;
        assert(sorted@ =~= arranged(entries@, order@).take(k as int));
    }
    assert(sorted@ =~= arranged(entries@, order@));
    sorted
}

/// The last part of a path: what follows its last `/`.
pub open spec fn base(path: Seq<char>) -> Seq<char> {
    path.skip(last_index(path, '/') + 1)
}

/// Whether `c` is the place of a child of `n`.
pub open spec fn in_children(n: Node, c: int) -> bool {
    n.first_child <= c < n.first_child + n.children
}

/// Whether the node at `i` fits into the tree: it is a child of its parent,
/// which stands before it; its children stand behind it, are its own and are
/// sorted; only a listed directory has children; a file is never expanded
/// or listed.
pub open spec fn node_wf(nodes: Seq<Node>, i: int) -> bool {
    let n = nodes[i];
    &&& if i == 0 {
        n.parent == 0 && n.entry.dir is Some
    } else {
        n.parent < i && in_children(nodes[n.parent as int], i)
    }
    &&& n.children > 0 ==> i < n.first_child && n.first_child + n.children <= nodes.len()
    &&& n.entry.dir is None ==> n.children == 0 && !n.expanded && n.listing == Listing::Never
    &&& n.listing != Listing::Done ==> n.children == 0
    &&& forall|c: int| in_children(n, c) ==> (#[trigger] nodes[c]).parent == i
    &&& forall|a: int, b: int|
        in_children(n, a) && in_children(n, b) && a < b ==> (#[trigger] nodes[a]).entry.le(
            &(#[trigger] nodes[b]).entry,
        )
}

/// Whether the nodes make a tree with the root at place 0.
pub open spec fn tree_wf(nodes: Seq<Node>) -> bool {
    &&& nodes.len() >= 1
    &&& forall|i: int| 0 <= i < nodes.len() ==> #[trigger] node_wf(nodes, i)
}

/// A node that has just been listed as a child of `parent`.
pub open spec fn child_node(entry: TreeEntry, parent: usize) -> Node {
    Node { entry, parent, first_child: 0, children: 0, expanded: false, listing: Listing::Never }
}

/// The tree after the directory at `at` got `kids` as its children.
pub open spec fn grown(nodes: Seq<Node>, at: usize, kids: Seq<TreeEntry>) -> Seq<Node> {
    nodes.update(
        at as int,
        Node {
            first_child: nodes.len() as usize,
            children: kids.len() as usize,
            listing: Listing::Done,
            ..nodes[at as int]
        },
    ) + kids.map_values(|entry: TreeEntry| child_node(entry, at))
}

/// Whether `kids` are what `listing` shows, sorted.
pub open spec fn lists(listing: Seq<Listed>, kids: Seq<TreeEntry>) -> bool {
    exists|entries: Seq<TreeEntry>| #[trigger]
        collected(listing, entries) && is_sorting(entries, kids)
}

/// The entries of the nodes from place `from` on.
pub open spec fn entries_from(nodes: Seq<Node>, from: int) -> Seq<TreeEntry> {
    nodes.skip(from).map_values(|n: Node| n.entry)
}

/// Whether `after` is the tree `before` once `listing` came in for the node
/// at `node`: a directory whose entries were asked for has got them as its
/// children, and nothing else has changed at all.
pub open spec fn expands(before: Seq<Node>, node: usize, listing: Seq<Listed>, after: Seq<Node>) -> bool {
    if awaits(before, node) {
        let kids = entries_from(after, before.len() as int);
        &&& after.len() >= before.len()
        &&& lists(listing, kids)
        &&& after == grown(before, node, kids)
    } else {
        after == before
    }
}

/// Whether the entries of the node at `node` were asked for and have not
/// come yet.
pub open spec fn awaits(nodes: Seq<Node>, node: usize) -> bool {
    node < nodes.len() && nodes[node as int].listing == Listing::Asked
}

/// Whether opening or closing the node at `node` asks for a listing: it
/// does where a directory that was never listed is opened.
pub open spec fn asks(nodes: Seq<Node>, node: usize, collapsed: bool) -> bool {
    &&& node < nodes.len()
    &&& nodes[node as int].entry.dir is Some
    &&& !collapsed
    &&& nodes[node as int].listing == Listing::Never
}

/// The tree after the node at `node` was opened or closed. Only a directory
/// changes.
pub open spec fn toggled(nodes: Seq<Node>, node: usize, collapsed: bool) -> Seq<Node> {
    if node < nodes.len() && nodes[node as int].entry.dir is Some {
        nodes.update(
            node as int,
            Node {
                expanded: !collapsed,
                listing: if asks(nodes, node, collapsed) {
                    Listing::Asked
                } else {
                    nodes[node as int].listing
                },
                ..nodes[node as int]
            },
        )
    } else {
        nodes
    }
}

/// Whether the node at `node` is a file.
pub open spec fn is_file(nodes: Seq<Node>, node: usize) -> bool {
    node < nodes.len() && nodes[node as int].entry.dir is None
}

/// The path of the file at `node`: its name, seen from the directory that
/// holds it.
pub open spec fn file_path(nodes: Seq<Node>, node: usize) -> Seq<char> {
    let n = nodes[node as int];
    joined(nodes[n.parent as int].entry.dir.unwrap()@, n.entry.name@)
}

/// What a snapshot holds of a tree: all of it.
pub open spec fn captured(nodes: Seq<Node>) -> Seq<Node> {
    nodes
}

/// The tree that a browser comes back with from a snapshot.
pub open spec fn restored(snapshot: Seq<Node>) -> Seq<Node> {
    snapshot
}

/// Which nodes show their children.
pub open spec fn expansion(nodes: Seq<Node>) -> Seq<bool> {
    nodes.map_values(|n: Node| n.expanded)
}

/// Whether `after` may follow `before` in one session: no node is lost or
/// changes what it shows, and a node that was asked about or listed stays
/// so.
pub open spec fn follows(before: Seq<Node>, after: Seq<Node>) -> bool {
    &&& before.len() <= after.len()
    &&& forall|i: int|
        0 <= i < before.len() ==> (#[trigger] after[i]).entry == before[i].entry && (
        before[i].listing != Listing::Never ==> after[i].listing != Listing::Never)
}

/// What may follow what may follow may follow.
pub proof fn lemma_follows_transitive(a: Seq<Node>, b: Seq<Node>, c: Seq<Node>)
    requires
        follows(a, b),
        follows(b, c),
    ensures
        follows(a, c),
{
    assert forall|i: int| 0 <= i < a.len() implies (#[trigger] c[i]).entry == a[i].entry && (
    a[i].listing != Listing::Never ==> c[i].listing != Listing::Never) by {
        assert(b[i].entry == a[i].entry);
    }
}

/// A directory is asked about once: opening it asks only while it was never
/// asked about, and from then on, whatever follows in the session, opening
/// it asks no more.
pub proof fn lemma_asked_once(
    nodes: Seq<Node>,
    later: Seq<Node>,
    node: usize,
    collapsed: bool,
    again: bool,
)
    requires
        asks(nodes, node, collapsed),
        follows(toggled(nodes, node, collapsed), later),
    ensures
        toggled(nodes, node, collapsed)[node as int].listing == Listing::Asked,
        !asks(later, node, again),
{
    assert(later[node as int].listing != Listing::Never);
}

/// In a tree, the children of a directory stand with the directories first.
pub proof fn lemma_directories_first(nodes: Seq<Node>, parent: int, a: int, b: int)
    requires
        tree_wf(nodes),
        0 <= parent < nodes.len(),
        in_children(nodes[parent], a),
        in_children(nodes[parent], b),
        a < b,
    ensures
        nodes[a].parent == parent,
        nodes[b].parent == parent,
        nodes[a].entry.dir is None ==> nodes[b].entry.dir is None,
        nodes[a].entry.dir is Some == nodes[b].entry.dir is Some ==> lex_le(
            nodes[a].entry.name@,
            nodes[b].entry.name@,
        ),
{
    assert(node_wf(nodes, parent));
}

/// A listed directory keeps a tree a tree.
proof fn lemma_grown_wf(nodes: Seq<Node>, at: usize, kids: Seq<TreeEntry>)
    requires
        tree_wf(nodes),
        at < nodes.len(),
        nodes[at as int].listing == Listing::Asked,
        nodes.len() + kids.len() <= usize::MAX,
        forall|a: int, b: int|
            #![trigger kids[a], kids[b]]
            0 <= a < b < kids.len() ==> kids[a].le(&kids[b]),
    ensures
        tree_wf(grown(nodes, at, kids)),
{
    let next = grown(nodes, at, kids);
    let n = nodes.len() as int;
    assert(node_wf(nodes, at as int));
    assert forall|i: int| 0 <= i < next.len() implies #[trigger] node_wf(next, i) by {
        if i < n {
            assert(node_wf(nodes, i));
            if i != at {
                assert(next[i] == nodes[i]);
                if i > 0 {
                    let p = nodes[i].parent as int;
                    assert(node_wf(nodes, p));
                    assert(p != at);
                    assert(next[p] == nodes[p]);
                }
                assert forall|c: int| in_children(next[i], c) implies (#[trigger] next[c]).parent
                    == i by {
                    assert(nodes[c].parent == i);
                    assert(next[c].parent == nodes[c].parent);
                }
                assert forall|a: int, b: int|
                    in_children(next[i], a) && in_children(next[i], b) && a < b implies (
                #[trigger] next[a]).entry.le(&(#[trigger] next[b]).entry) by {
                    assert(next[a].entry == nodes[a].entry);
                    assert(next[b].entry == nodes[b].entry);
                    assert(nodes[a].entry.le(&nodes[b].entry));
                }
            } else {
                if i > 0 {
                    let p = nodes[i].parent as int;
                    assert(node_wf(nodes, p));
                    assert(next[p] == nodes[p]);
                }
                assert forall|c: int| in_children(next[i], c) implies (#[trigger] next[c]).parent
                    == i by {
                    assert(next[c] == child_node(kids[c - n], at));
                }
                assert forall|a: int, b: int|
                    in_children(next[i], a) && in_children(next[i], b) && a < b implies (
                #[trigger] next[a]).entry.le(&(#[trigger] next[b]).entry) by {
                    assert(next[a] == child_node(kids[a - n], at));
                    assert(next[b] == child_node(kids[b - n], at));
                    assert(kids[a - n].le(&kids[b - n]));
                }
            }
        } else {
            assert(next[i] == child_node(kids[i - n], at));
        }
    }
}

/// Opening or closing a node keeps a tree a tree.
proof fn lemma_toggled_wf(nodes: Seq<Node>, node: usize, collapsed: bool)
    requires
        tree_wf(nodes),
    ensures
        tree_wf(toggled(nodes, node, collapsed)),
{
    let next = toggled(nodes, node, collapsed);
    assert forall|i: int| 0 <= i < next.len() implies #[trigger] node_wf(next, i) by {
        assert(node_wf(nodes, i));
        if i > 0 {
            assert(node_wf(nodes, nodes[i].parent as int));
        }
        assert forall|a: int, b: int|
            in_children(next[i], a) && in_children(next[i], b) && a < b implies (
        #[trigger] next[a]).entry.le(&(#[trigger] next[b]).entry) by {
            assert(nodes[a].entry.le(&nodes[b].entry));
        }
        assert forall|c: int| in_children(next[i], c) implies (#[trigger] next[c]).parent
            == i by {
            assert(nodes[c].parent == i);
        }
    }
}

/// Whether the node at `i` has children that stand behind it in the arena.
pub open spec fn has_children(nodes: Seq<Node>, i: int) -> bool {
    &&& 0 <= i < nodes.len()
    &&& nodes[i].children > 0
    &&& i < nodes[i].first_child
    &&& nodes[i].first_child + nodes[i].children <= nodes.len()
}

/// The nodes below and including the node at `i`, in the order in which a
/// tree is drawn: a node, and then each of its children with all that is
/// below it.
pub open spec fn subtree(nodes: Seq<Node>, i: int) -> Seq<int>
    decreases nodes.len() - i, 0int,
{
    if has_children(nodes, i) {
        seq![i] + forest(
            nodes,
            nodes[i].first_child as int,
            nodes[i].first_child + nodes[i].children,
        )
    } else {
        seq![i]
    }
}

/// The nodes below and including those from `from` up to `to`, in the order
/// in which a tree is drawn.
pub open spec fn forest(nodes: Seq<Node>, from: int, to: int) -> Seq<int>
    decreases nodes.len() - from, 1int,
{
    if 0 <= from < to && from < nodes.len() {
        subtree(nodes, from) + forest(nodes, from + 1, to)
    } else {
        Seq::empty()
    }
}

/// The nodes that the lines show.
pub open spec fn nodes_of(rows: Seq<Row>) -> Seq<int> {
    rows.map_values(|r: Row| r.node as int)
}

/// Whether the line at `k` shows its node as it is, and names the line of
/// the node that holds it, which stands above.
pub open spec fn row_wf(nodes: Seq<Node>, rows: Seq<Row>, k: int) -> bool {
    let r = rows[k];
    let n = nodes[r.node as int];
    &&& r.node < nodes.len()
    &&& r.label@ == n.entry.name@
    &&& r.container == n.entry.dir is Some
    &&& r.expanded == n.expanded
    &&& r.parent <= k
    &&& k > 0 ==> r.parent < k
    &&& rows[r.parent as int].node == n.parent
}

/// Whether every line is as `row_wf` asks.
pub open spec fn rows_wf(nodes: Seq<Node>, rows: Seq<Row>) -> bool {
    forall|k: int| 0 <= k < rows.len() ==> #[trigger] row_wf(nodes, rows, k)
}

/// Whether `rows` are the lines of the whole tree.
pub open spec fn is_outline(nodes: Seq<Node>, rows: Seq<Row>) -> bool {
    nodes_of(rows) == subtree(nodes, 0) && rows_wf(nodes, rows)
}

/// The nodes up to and including `c` are those before `c`, and then `c` with
/// all that is below it.
proof fn lemma_forest_next(nodes: Seq<Node>, from: int, c: int)
    requires
        0 <= from <= c < nodes.len(),
    ensures
        forest(nodes, from, c + 1) == forest(nodes, from, c) + subtree(nodes, c),
    decreases c - from,
{
    if from < c {
        lemma_forest_next(nodes, from + 1, c);
        assert(forest(nodes, from, c + 1) == subtree(nodes, from) + forest(nodes, from + 1, c + 1));
        assert(forest(nodes, from, c) == subtree(nodes, from) + forest(nodes, from + 1, c));
        assert(subtree(nodes, from) + (forest(nodes, from + 1, c) + subtree(nodes, c)) =~= (
        subtree(nodes, from) + forest(nodes, from + 1, c)) + subtree(nodes, c));
    } else {
        assert(forest(nodes, c + 1, c + 1) == Seq::<int>::empty());
        assert(forest(nodes, c, c) == Seq::<int>::empty());
        assert(forest(nodes, c, c + 1) =~= forest(nodes, c, c) + subtree(nodes, c));
    }
}

/// Adds the lines of the node at `i` and of all that is below it.
fn draw_subtree(nodes: &Vec<Node>, i: usize, parent: usize, rows: &mut Vec<Row>)
    requires
        tree_wf(nodes@),
        i < nodes.len(),
        rows_wf(nodes@, old(rows)@),
        if old(rows).len() == 0 {
            i == 0 && parent == 0
        } else {
            parent < old(rows).len() && old(rows)[parent as int].node == nodes[i as int].parent
        },
    ensures
        final(rows)@.len() > old(rows)@.len(),
        final(rows)@.take(old(rows)@.len() as int) == old(rows)@,
        nodes_of(final(rows)@) == nodes_of(old(rows)@) + subtree(nodes@, i as int),
        rows_wf(nodes@, final(rows)@),
    decreases nodes.len() - i,
{
    let ghost before = rows@;
    let at = rows.len();
    let n = &nodes[i];
    assert(node_wf(nodes@, i as int));
    rows.push(
        Row {
            node: i,
            parent,
            label: n.entry.name.clone(),
            container: n.entry.dir.is_some(),
            expanded: n.expanded,
        },
    );
    proof {
        assert(rows@.take(at as int) =~= before);
        assert(nodes_of(rows@) =~= nodes_of(before) + seq![i as int]);
        assert forall|k: int| 0 <= k < rows.len() implies #[trigger] row_wf(nodes@, rows@, k) by {
            if k < at {
                assert(row_wf(nodes@, before, k));
                assert(rows@[k] == before[k]);
                assert(rows@[before[k].parent as int] == before[before[k].parent as int]);
            }
        }
    }
    if n.children > 0 {
        let first = n.first_child;
        let end = first + n.children;
        let mut c = first;
        while c < end
            invariant
                tree_wf(nodes@),
                i < first <= c <= end <= nodes.len(),
                first == nodes[i as int].first_child,
                end == first + nodes[i as int].children,
                at == before.len(),
                at < rows.len(),
                rows[at as int].node == i,
                rows@.take(at as int) == before,
                nodes_of(rows@) == nodes_of(before) + seq![i as int] + forest(
                    nodes@,
                    first as int,
                    c as int,
                ),
                rows_wf(nodes@, rows@),
            decreases end - c,
        {
            let ghost had = rows@;
            proof {
                assert(node_wf(nodes@, i as int));
                assert(in_children(nodes[i as int], c as int));
                assert(nodes@[c as int].parent == i);
                lemma_forest_next(nodes@, first as int, c as int);
            }
            draw_subtree(nodes, c, at, rows);
            proof {
                assert(rows@.take(at as int) =~= had.take(at as int));
                assert(rows@[at as int] == had[at as int]) by {
                    assert(rows@.take(had.len() as int)[at as int] == had[at as int]);
                }
                assert(nodes_of(rows@) =~= nodes_of(before) + seq![i as int] + forest(
                    nodes@,
                    first as int,
                    c + 1,
                ));
            }
            c += 1;
        }
        assert(has_children(nodes@, i as int));
    } else {
        assert(!has_children(nodes@, i as int));
    }
}

/// The last part of `path`.
pub fn base_name(path: &str) -> (name: String)
    ensures
        name@ == base(path@),
{
    let chars = chars_of(path);
    proof {
        lemma_last_index(chars@, '/');
    }
    match find_last(&chars, '/') {
        None => {
            assert(path@.skip(0) == path@);
            path.to_owned()
        },
        Some(cut) => path.substring_char(cut + 1, chars.len()).to_owned(),
    }
}

/// Makes the nodes of `at` from sorted entries.
fn attach(nodes: &mut Vec<Node>, at: usize, kids: &Vec<TreeEntry>)
    requires
        tree_wf(old(nodes)@),
        at < old(nodes).len(),
        old(nodes)[at as int].listing == Listing::Asked,
        forall|a: int, b: int|
            #![trigger kids[a], kids[b]]
            0 <= a < b < kids.len() ==> kids[a].le(&kids[b]),
    ensures
        final(nodes)@ == grown(old(nodes)@, at, kids@),
        tree_wf(final(nodes)@),
{
    let first = nodes.len();
    let ghost before = nodes@;
    let mut k: usize = 0;
    while k < kids.len()
        invariant
            k <= kids.len(),
            first == before.len(),
            at < first,
            nodes@ == before + kids@.take(k as int).map_values(
                |entry: TreeEntry| child_node(entry, at),
            ),
        decreases kids.len() - k,
    {
        nodes.push(
            Node {
                entry: kids[k].duplicate(),
                parent: at,
                first_child: 0,
                children: 0,
                expanded: false,
                listing: Listing::Never,
            },
        );
        k += 1;
        assert(nodes@ =~= before + kids@.take(k as int).map_values(
            |entry: TreeEntry| child_node(entry, at),
        ));
    }
    assert(kids@.take(kids@.len() as int) == kids@);
    let total = nodes.len();
    assert(total == before.len() + kids@.len());
    nodes[at].first_child = first;
    nodes[at].children = kids.len();
    nodes[at].listing = Listing::Done;
    proof {
        assert(nodes@ =~= grown(before, at, kids@));
        lemma_grown_wf(before, at, kids@);
    }
}

/// A browser that is drawing: the tree, and the editor that files are
/// handed to.
#[derive(Debug)]
pub struct Session {
    nodes: Vec<Node>,
    editor: String,
}

/// The state of a browser that has stepped aside for the editor. It is made
/// by one submission and used up by one resumption.
#[derive(Debug)]
pub struct Snapshot {
    nodes: Vec<Node>,
    selected: usize,
}

/// A browser that has stepped aside: what it was, and what is to be run.
#[derive(Debug)]
pub struct Suspended {
    /// The state to come back to.
    pub snapshot: Snapshot,
    /// The program to run.
    pub editor: String,
    /// The file to run it on.
    pub file: String,
}

/// What submitting a node came to.
#[derive(Debug)]
pub enum Submitted {
    /// The node is no file: the browser goes on drawing.
    Stay(Session),
    /// The node is a file: the browser steps aside for the editor.
    Suspend(Suspended),
}

impl View for Session {
    type V = Seq<Node>;

    closed spec fn view(&self) -> Seq<Node> {
        self.nodes@
    }
}

impl View for Snapshot {
    type V = Seq<Node>;

    closed spec fn view(&self) -> Seq<Node> {
        self.nodes@
    }
}

impl Snapshot {
    #[verifier::type_invariant]
    spec fn inv(&self) -> bool {
        tree_wf(self.nodes@)
    }

    /// The node that was submitted.
    pub closed spec fn chosen(&self) -> usize {
        self.selected
    }

    /// The node that was submitted: the one to show selected again.
    pub fn selected(&self) -> (node: usize)
        ensures
            node == self.chosen(),
    {
        self.selected
    }
}

impl Session {
    #[verifier::type_invariant]
    spec fn inv(&self) -> bool {
        tree_wf(self.nodes@)
    }

    /// The program that files are handed to.
    pub closed spec fn editor_name(&self) -> Seq<char> {
        self.editor@
    }

    /// The program that files are handed to.
    pub fn editor(&self) -> (name: &str)
        ensures
            name@ == self.editor_name(),
    {
        self.editor.as_str()
    }

    /// The number of nodes.
    pub fn len(&self) -> (n: usize)
        ensures
            n == self@.len(),
            n >= 1,
    {
        proof {
            use_type_invariant(self);
        }
        self.nodes.len()
    }

    /// The node at `node`, if there is one.
    pub fn node(&self, node: usize) -> (r: Option<&Node>)
        ensures
            tree_wf(self@),
            match r {
                Some(n) => node < self@.len() && *n == self@[node as int],
                None => node >= self@.len(),
            },
    {
        proof {
            use_type_invariant(self);
        }
        if node < self.nodes.len() {
            Some(&self.nodes[node])
        } else {
            None
        }
    }

    /// The lines of the whole tree, in the order in which it is drawn: the
    /// root, and below every node its children with all that is below them.
    /// Lines below a directory that is not expanded are there too: they are
    /// what shows once it is opened.
    pub fn outline(&self) -> (rows: Vec<Row>)
        ensures
            is_outline(self@, rows@),
    {
        proof {
            use_type_invariant(self);
        }
        let mut rows: Vec<Row> = Vec::new();
        draw_subtree(&self.nodes, 0, 0, &mut rows);
        assert(nodes_of(rows@) =~= subtree(self.nodes@, 0));
        rows
    }

    /// Notes that the node at `node` was closed, if `collapsed`, or opened.
    /// Where a directory is opened that was never listed, its path is
    /// handed back: the caller reads that directory and passes what it holds
    /// to `expand_tree`.
    pub fn on_collapse(self, node: usize, collapsed: bool) -> (r: (Session, Option<String>))
        ensures
            r.0@ == toggled(self@, node, collapsed),
            r.0.editor_name() == self.editor_name(),
            tree_wf(r.0@),
            follows(self@, r.0@),
            match r.1 {
                Some(path) => asks(self@, node, collapsed) && path@ == self@[node as int].entry.dir.unwrap()@,
                None => !asks(self@, node, collapsed),
            },
    {
        proof {
            use_type_invariant(&self);
            lemma_toggled_wf(self.nodes@, node, collapsed);
        }
        if node >= self.nodes.len() {
            return (self, None);
        }
        let asked = match &self.nodes[node].entry.dir {
            None => {
                return (self, None);
            },
            Some(path) => {
                if !collapsed && self.nodes[node].listing == Listing::Never {
                    Some(path.clone())
                } else {
                    None
                }
            },
        };
        let Session { mut nodes, editor } = self;
        nodes[node].expanded = !collapsed;
        if asked.is_some() {
            nodes[node].listing = Listing::Asked;
        }
        assert(nodes@ =~= toggled(self.nodes@, node, collapsed));
        (Session { nodes, editor }, asked)
    }

    /// Gives the directory at `node` its children: the directories and files
    /// of `listing`, the directories first and each kind by name. This
    /// happens once for a directory, when its entries were asked for;
    /// otherwise nothing changes. Tells whether the children were added.
    pub fn expand_tree(self, node: usize, listing: Vec<Listed>) -> (r: (Session, bool))
        ensures
            tree_wf(r.0@),
            r.0.editor_name() == self.editor_name(),
            r.1 == awaits(self@, node),
            expands(self@, node, listing@, r.0@),
            follows(self@, r.0@),
    {
        proof {
            use_type_invariant(&self);
        }
        if node >= self.nodes.len() || self.nodes[node].listing != Listing::Asked {
            return (self, false);
        }
        let mut entries: Vec<TreeEntry> = Vec::new();
        collect_entries(listing, &mut entries);
        let kids = sorted_entries(&entries);
        proof {
            assert(entries@.skip(0) == entries@);
            assert forall|a: int, b: int|
                #![trigger kids[a], kids[b]]
                0 <= a < b < kids.len() implies kids[a].le(&kids[b]) by {
                lemma_sorting(entries@, kids@, a, b);
            }
        }
        let Session { mut nodes, editor } = self;
        attach(&mut nodes, node, &kids);
        proof {
            let got = entries_from(nodes@, self.nodes@.len() as int);
            assert(got =~= kids@);
            assert(collected(listing@, entries@) && is_sorting(entries@, kids@));
        }
        (Session { nodes, editor }, true)
    }

    /// Submits the node at `node`. A file makes the browser step aside: its
    /// state is captured, and the editor is to be run on the file. Anything
    /// else leaves the browser drawing.
    pub fn on_submit(self, node: usize) -> (r: Submitted)
        ensures
            match r {
                Submitted::Stay(session) => !is_file(self@, node) && session == self,
                Submitted::Suspend(suspended) => {
                    &&& is_file(self@, node)
                    &&& suspended.snapshot@ == captured(self@)
                    &&& suspended.snapshot.chosen() == node
                    &&& suspended.editor@ == self.editor_name()
                    &&& suspended.file@ == file_path(self@, node)
                },
            },
    {
        proof {
            use_type_invariant(&self);
        }
        if node >= self.nodes.len() || self.nodes[node].entry.dir.is_some() {
            return Submitted::Stay(self);
        }
        assert(node_wf(self.nodes@, node as int));
        let parent = self.nodes[node].parent;
        assert(node_wf(self.nodes@, parent as int));
        let file = match &self.nodes[parent].entry.dir {
            Some(dir) => join_path(dir.as_str(), self.nodes[node].entry.name.as_str()),
            None => self.nodes[node].entry.name.clone(),
        };
        let Session { nodes, editor } = self;
        Submitted::Suspend(Suspended { snapshot: Snapshot { nodes, selected: node }, editor, file })
    }
}

/// Opens a browser on `directory`: the root shows the last part of the path
/// and stands opened, over the directories and files of `listing`.
pub fn show_tree_with_working_directory(
    directory: String,
    editor: String,
    listing: Vec<Listed>,
) -> (session: Session)
    ensures
        tree_wf(session@),
        session.editor_name() == editor@,
        ({
            let root = session@[0];
            let kids = entries_from(session@, 1);
            &&& root.entry.name@ == base(directory@)
            &&& root.entry.dir == Some(directory)
            &&& root.expanded
            &&& root.listing == Listing::Done
            &&& root.first_child == 1
            &&& root.children == kids.len()
            &&& lists(listing@, kids)
            &&& forall|i: int| 1 <= i < session@.len() ==> #[trigger] session@[i] == child_node(kids[i - 1], 0)
        }),
{
    let name = base_name(directory.as_str());
    let mut nodes: Vec<Node> = Vec::new();
    nodes.push(
        Node {
            entry: TreeEntry { name, dir: Some(directory) },
            parent: 0,
            first_child: 0,
            children: 0,
            expanded: true,
            listing: Listing::Asked,
        },
    );
    let ghost start = nodes@;
    assert(node_wf(start, 0));
    let mut entries: Vec<TreeEntry> = Vec::new();
    collect_entries(listing, &mut entries);
    let kids = sorted_entries(&entries);
    proof {
        assert(entries@.skip(0) == entries@);
        assert forall|a: int, b: int|
            #![trigger kids[a], kids[b]]
            0 <= a < b < kids.len() implies kids[a].le(&kids[b]) by {
            lemma_sorting(entries@, kids@, a, b);
        }
    }
    attach(&mut nodes, 0, &kids);
    proof {
        assert(entries_from(nodes@, 1) =~= kids@);
        assert(collected(listing@, entries@) && is_sorting(entries@, kids@));
    }
    Session { nodes, editor }
}

/// Brings a browser back after the editor: `started` tells whether the
/// editor could be started at all. How the editor ended is of no account.
/// The browser comes back as it was captured; an editor that could not be
/// started ends the browser with an error.
pub fn resume(suspended: Suspended, started: bool) -> (r: Result<Session, Failure>)
    ensures
        match r {
            Ok(session) => started && session@ == restored(suspended.snapshot@)
                && session.editor_name() == suspended.editor@,
            Err(e) => !started && e == Failure::ProcessSpawn,
        },
{
    if !started {
        return Err(Failure::ProcessSpawn);
    }
    let Suspended { snapshot, editor, file: _ } = suspended;
    proof {
        use_type_invariant(&snapshot);
    }
    let Snapshot { nodes, selected: _ } = snapshot;
    Ok(Session { nodes, editor })
}

/// A browser that steps aside and comes back shows the same nodes, and the
/// same of them opened, as before.
pub proof fn lemma_resume_restores(nodes: Seq<Node>)
    ensures
        restored(captured(nodes)) == nodes,
        expansion(restored(captured(nodes))) == expansion(nodes),
{
}

/// A browser in one of its three states.
#[derive(Debug)]
pub enum Browser {
    /// The browser draws the tree and takes the user's input.
    Rendering(Session),
    /// The browser has stepped aside: the editor has the terminal.
    Suspended(Suspended),
    /// The browser has ended.
    Exited,
}

/// What happened to a browser.
#[derive(Debug)]
pub enum Event {
    /// The user closed, if `collapsed`, or opened the node.
    Collapse { node: usize, collapsed: bool },
    /// The entries of the node's directory were read.
    Listed { node: usize, listing: Vec<Listed> },
    /// The user submitted the node.
    Submit { node: usize },
    /// The editor is over; `started` tells whether it could be started.
    EditorDone { started: bool },
    /// The user asked to leave.
    Quit,
}

/// What the caller of a browser has to do next.
#[derive(Debug)]
pub enum Action {
    /// Nothing but to go on.
    Nothing,
    /// Read the directory at `path` and hand in its entries for `node`.
    List { node: usize, path: String },
    /// Give up the terminal, run `editor` on `file`, wait for it to end,
    /// and say so.
    Edit { editor: String, file: String },
    /// Take the terminal again and draw the tree anew.
    Redraw,
    /// Give up the terminal for good.
    Leave,
    /// Give up the terminal for good and tell the user of the error.
    Fail(Failure),
}

/// The tree of a browser; one that has ended has none.
pub open spec fn tree_of(browser: Browser) -> Option<Seq<Node>> {
    match browser {
        Browser::Rendering(session) => Some(session@),
        Browser::Suspended(kept) => Some(kept.snapshot@),
        Browser::Exited => None,
    }
}

/// The state and the action that follow from a state and an event.
///
/// A drawing browser notes what is opened and closed, and asks for the
/// entries of a directory when it is first opened; it takes the entries it
/// asked for; it steps aside when a file is submitted; it ends when asked
/// to. A browser that has stepped aside comes back as it was when the
/// editor is over, and ends with an error if the editor could not be
/// started. Any other event leaves a browser as it is.
pub fn step(browser: Browser, event: Event) -> (r: (Browser, Action))
    ensures
        match (browser, event) {
            (Browser::Rendering(s), Event::Collapse { node, collapsed }) => {
                &&& r.0 matches Browser::Rendering(t)
                &&& t@ == toggled(s@, node, collapsed)
                &&& t.editor_name() == s.editor_name()
                &&& match r.1 {
                    Action::List { node: asked, path } => asks(s@, node, collapsed) && asked
                        == node && path@ == s@[node as int].entry.dir.unwrap()@,
                    Action::Nothing => !asks(s@, node, collapsed),
                    _ => false,
                }
            },
            (Browser::Rendering(s), Event::Listed { node, listing }) => {
                &&& r.0 matches Browser::Rendering(t)
                &&& expands(s@, node, listing@, t@)
                &&& t.editor_name() == s.editor_name()
                &&& r.1 is Nothing
            },
            (Browser::Rendering(s), Event::Submit { node }) => if is_file(s@, node) {
                &&& r.0 matches Browser::Suspended(kept)
                &&& kept.snapshot@ == captured(s@)
                &&& kept.snapshot.chosen() == node
                &&& kept.editor@ == s.editor_name()
                &&& kept.file@ == file_path(s@, node)
                &&& r.1 matches Action::Edit { editor, file }
                &&& editor@ == s.editor_name()
                &&& file@ == file_path(s@, node)
            } else {
                r.0 == browser && r.1 is Nothing
            },
            (Browser::Rendering(_), Event::Quit) => r.0 is Exited && r.1 is Leave,
            (Browser::Suspended(kept), Event::EditorDone { started }) => if started {
                &&& r.0 matches Browser::Rendering(t)
                &&& t@ == restored(kept.snapshot@)
                &&& t.editor_name() == kept.editor@
                &&& r.1 is Redraw
            } else {
                r.0 is Exited && r.1 == Action::Fail(Failure::ProcessSpawn)
            },
            _ => r.0 == browser && r.1 is Nothing,
        },
        match (tree_of(browser), tree_of(r.0)) {
            (Some(before), Some(after)) => follows(before, after),
            _ => true,
        },
{
    match browser {
        Browser::Rendering(session) => match event {
            Event::Collapse { node, collapsed } => {
                let (next, asked) = session.on_collapse(node, collapsed);
                let action = match asked {
                    Some(path) => Action::List { node, path },
                    None => Action::Nothing,
                };
                (Browser::Rendering(next), action)
            },
            Event::Listed { node, listing } => {
                let (next, _) = session.expand_tree(node, listing);
                (Browser::Rendering(next), Action::Nothing)
            },
            Event::Submit { node } => match session.on_submit(node) {
                Submitted::Stay(same) => (Browser::Rendering(same), Action::Nothing),
                Submitted::Suspend(kept) => {
                    let action = Action::Edit {
                        editor: kept.editor.clone(),
                        file: kept.file.clone(),
                    };
                    (Browser::Suspended(kept), action)
                },
            },
            Event::Quit => (Browser::Exited, Action::Leave),
            Event::EditorDone { started: _ } => (Browser::Rendering(session), Action::Nothing),
        },
        Browser::Suspended(kept) => match event {
            Event::EditorDone { started } => match resume(kept, started) {
                Ok(session) => (Browser::Rendering(session), Action::Redraw),
                Err(e) => (Browser::Exited, Action::Fail(e)),
            },
            _ => (Browser::Suspended(kept), Action::Nothing),
        },
        Browser::Exited => (Browser::Exited, Action::Nothing),
    }
}

} // verus!
