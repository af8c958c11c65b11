//! The files to upload: walking folders, and listing what was selected.

use vstd::prelude::*;

use crate::order::{reversed, Placing};
use crate::path::{
    file_name,
    hidden,
    is_hidden,
    law_path_irreflexive,
    law_path_transitive,
    name_of,
    part_views,
    path_lt,
    place_paths,
    PartView,
    PathPart,
};
use crate::text::{blank, is_blank, join2, law_blank, opt_str, white};

verus! {

/// A path that a file to upload may be under. Its parts and the way it is shown
/// are taken as the platform gives them.
pub struct Source {
    /// A number by which the path is found again.
    pub id: usize,
    /// The parts of the path.
    pub parts: Vec<PathPart>,
    /// The path as it is shown.
    pub path: String,
}

/// The view of a source.
pub struct SourceView {
    pub id: usize,
    pub parts: Seq<PartView>,
    pub path: Seq<char>,
}

impl View for Source {
    type V = SourceView;

    open spec fn view(&self) -> SourceView {
        SourceView { id: self.id, parts: part_views(self.parts@), path: self.path@ }
    }
}

/// The views of a list of sources.
pub open spec fn source_views(list: Seq<Source>) -> Seq<SourceView> {
    list.map_values(|s: Source| s@)
}

/// A single file slated for upload, with a display name and size.
pub struct FileEntry {
    pub path: String,
    pub name: String,
    pub size: u64,
}

/// The view of a file entry.
pub struct EntryView {
    pub path: Seq<char>,
    pub name: Seq<char>,
    pub size: u64,
}

impl View for FileEntry {
    type V = EntryView;

    open spec fn view(&self) -> EntryView {
        EntryView { path: self.path@, name: self.name@, size: self.size }
    }
}

/// What is under a path.
#[derive(Clone, Copy, PartialEq, Eq, Structural)]
pub enum EntryKind {
    Directory,
    File,
    Other,
}

// ---------------------------------------------------------------- walking

/// A walk through a folder that skips what is hidden.
pub struct DirWalk {
    /// What is to be visited, the next entry last.
    stack: Vec<Source>,
    found: Vec<Source>,
}

/// The view of a walk: what is to be visited, in that order, and the files found.
pub struct WalkView {
    pub pending: Seq<SourceView>,
    pub found: Seq<SourceView>,
}

impl View for DirWalk {
    type V = WalkView;

    closed spec fn view(&self) -> WalkView {
        WalkView {
            pending: source_views(self.stack@).reverse(),
            found: source_views(self.found@),
        }
    }
}

/// What is left from the first entry on that is not hidden.
pub open spec fn past_hidden(pending: Seq<SourceView>) -> Seq<SourceView>
    decreases pending.len(),
{
    if pending.len() > 0 && hidden(pending.first().parts) {
        past_hidden(pending.drop_first())
    } else {
        pending
    }
}

/// The entry that a walk visits next.
pub open spec fn next_entry(w: WalkView) -> Option<SourceView> {
    if past_hidden(w.pending).len() > 0 {
        Some(past_hidden(w.pending).first())
    } else {
        None
    }
}

/// A walk that has taken out the entry it visits next.
pub open spec fn taken(w: WalkView) -> WalkView {
    let rest = past_hidden(w.pending);
    WalkView { pending: if rest.len() > 0 { rest.drop_first() } else { rest }, ..w }
}

/// A walk that has visited an entry of some kind: a file is found.
pub open spec fn visited(w: WalkView, entry: SourceView, kind: EntryKind) -> WalkView {
    match kind {
        EntryKind::File => WalkView { found: w.found.push(entry), ..w },
        _ => w,
    }
}

/// A walk that has entered a directory with these entries: they come next.
pub open spec fn entered(w: WalkView, entries: Seq<SourceView>) -> WalkView {
    WalkView { pending: entries + w.pending, ..w }
}

impl DirWalk {
    /// A walk with nothing to visit.
    pub fn new() -> (r: DirWalk)
        ensures
            r@ == (WalkView { pending: seq![], found: seq![] }),
    {
        let r = DirWalk { stack: Vec::new(), found: Vec::new() };
        proof {
            assert(r@.pending =~= seq![]);
            assert(r@.found =~= seq![]);
        }
        r
    }

    /// Enters a directory that has these entries.
    pub fn enter(&mut self, entries: Vec<Source>)
        ensures
            final(self)@ == entered(old(self)@, source_views(entries@)),
    {
        let ghost before = self.stack@;
        let mut last_first = reversed(entries);
        self.stack.append(&mut last_first);
        proof {
            assert(self@.pending =~= source_views(entries@) + source_views(before).reverse());
        }
    }

    /// Takes out the entry to visit next, passing over what is hidden.
    pub fn next(&mut self) -> (r: Option<Source>)
        ensures
            final(self)@ == taken(old(self)@),
            r is Some <==> next_entry(old(self)@) is Some,
            r matches Some(entry) ==> next_entry(old(self)@) == Some(entry@),
    {
        while self.stack.len() > 0
            invariant
                past_hidden(self@.pending) == past_hidden(old(self)@.pending),
                self.found@ == old(self).found@,
            decreases self.stack@.len(),
        {
            let ghost now = self@.pending;
            if let Some(entry) = self.stack.pop() {
                proof {
                    assert(now.first() == entry@);
                    assert(now.drop_first() =~= self@.pending);
                }
                if !is_hidden(&entry.parts) {
                    return Some(entry);
                }
            }
        }
        proof {
            assert(self@.pending =~= seq![]);
        }
        None
    }

    /// Visits an entry of some kind. Gives it back if it is to be entered.
    pub fn visit(&mut self, entry: Source, kind: EntryKind) -> (r: Option<Source>)
        ensures
            final(self)@ == visited(old(self)@, entry@, kind),
            r == (if kind == EntryKind::Directory {
                Some(entry)
            } else {
                None
            }),
    {
        match kind {
            EntryKind::Directory => Some(entry),
            EntryKind::File => {
                proof {
                    assert(source_views(self.found@.push(entry)) =~= source_views(
                        self.found@,
                    ).push(entry@));
                }
                self.found.push(entry);
                None
            },
            EntryKind::Other => None,
        }
    }

    /// The files that the walk found.
    pub fn into_found(self) -> (r: Vec<Source>)
        ensures
            source_views(r@) == self@.found,
    {
        self.found
    }
}

/// What a folder holds, as far down as it goes.
pub enum Node {
    File(SourceView),
    Directory(SourceView, Seq<Node>),
    Other(SourceView),
}

impl Node {
    /// The path of the node.
    pub open spec fn entry(self) -> SourceView {
        match self {
            Node::File(e) => e,
            Node::Directory(e, _) => e,
            Node::Other(e) => e,
        }
    }

    /// What is under the path of the node.
    pub open spec fn kind(self) -> EntryKind {
        match self {
            Node::File(_) => EntryKind::File,
            Node::Directory(_, _) => EntryKind::Directory,
            Node::Other(_) => EntryKind::Other,
        }
    }

    /// The entries of the node, if it is a directory.
    pub open spec fn nodes(self) -> Seq<Node> {
        match self {
            Node::Directory(_, nodes) => nodes,
            _ => seq![],
        }
    }
}

/// The paths of a list of nodes.
pub open spec fn entries(nodes: Seq<Node>) -> Seq<SourceView> {
    nodes.map_values(|n: Node| n.entry())
}

/// The files at and below a node: none if the node is hidden.
pub open spec fn files_at(node: Node) -> Seq<SourceView>
    decreases node,
{
    if hidden(node.entry().parts) {
        seq![]
    } else {
        match node {
            Node::File(e) => seq![e],
            Node::Directory(_, nodes) => files_in(nodes),
            Node::Other(_) => seq![],
        }
    }
}

/// The files at and below a list of nodes, without what is hidden.
pub open spec fn files_in(nodes: Seq<Node>) -> Seq<SourceView>
    decreases nodes,
{
    if nodes.len() == 0 {
        seq![]
    } else {
        files_at(nodes[0]) + files_in(nodes.drop_first())
    }
}

/// The number of nodes at and below a node.
pub open spec fn count_at(node: Node) -> nat
    decreases node,
{
    1 + match node {
        Node::Directory(_, nodes) => count_in(nodes),
        _ => 0,
    }
}

/// The number of nodes at and below a list of nodes.
pub open spec fn count_in(nodes: Seq<Node>) -> nat
    decreases nodes,
{
    if nodes.len() == 0 {
        0
    } else {
        count_at(nodes[0]) + count_in(nodes.drop_first())
    }
}

/// The nodes from the first one on that is not hidden.
pub open spec fn visible_from(nodes: Seq<Node>) -> Seq<Node>
    decreases nodes.len(),
{
    if nodes.len() > 0 && hidden(nodes.first().entry().parts) {
        visible_from(nodes.drop_first())
    } else {
        nodes
    }
}

/// A walk over `nodes`, of which it is to visit the first ones, after it was
/// told up to `n` times what is under the next path and, for a directory, what
/// its entries are.
pub open spec fn walked(w: WalkView, nodes: Seq<Node>, n: nat) -> WalkView
    decreases n,
{
    match next_entry(w) {
        Some(entry) => if n == 0 {
            w
        } else {
            let rest = visible_from(nodes);
            let node = rest.first();
            let after = visited(taken(w), entry, node.kind());
            walked(
                if node.kind() == EntryKind::Directory {
                    entered(after, entries(node.nodes()))
                } else {
                    after
                },
                node.nodes() + rest.drop_first(),
                (n - 1) as nat,
            )
        },
        None => taken(w),
    }
}

proof fn lemma_files_join(a: Seq<Node>, b: Seq<Node>)
    ensures
        files_in(a + b) == files_in(a) + files_in(b),
        count_in(a + b) == count_in(a) + count_in(b),
    decreases a.len(),
{
    if a.len() == 0 {
        assert(a + b =~= b);
        assert(files_in(a) + files_in(b) =~= files_in(b));
    } else {
        lemma_files_join(a.drop_first(), b);
        assert((a + b).drop_first() =~= a.drop_first() + b);
        assert(files_in(a + b) =~= files_in(a) + files_in(b));
    }
}

proof fn lemma_visible_from(nodes: Seq<Node>)
    ensures
        files_in(visible_from(nodes)) == files_in(nodes),
        count_in(visible_from(nodes)) <= count_in(nodes),
        past_hidden(entries(nodes)) == entries(visible_from(nodes)),
        visible_from(nodes).len() > 0 ==> !hidden(visible_from(nodes).first().entry().parts),
    decreases nodes.len(),
{
    reveal_with_fuel(files_at, 2);
    reveal_with_fuel(files_in, 2);
    if nodes.len() > 0 {
        assert(entries(nodes).first() == nodes.first().entry());
        assert(entries(nodes).drop_first() =~= entries(nodes.drop_first()));
        if hidden(nodes.first().entry().parts) {
            lemma_visible_from(nodes.drop_first());
            assert(files_in(nodes) =~= files_in(nodes.drop_first()));
        }
    }
}

/// A walk that is told the truth about what a folder holds is over after
/// finitely many visits, and has then found the files in it, folder by folder,
/// without what is hidden.
pub proof fn law_walk_finds_files(w: WalkView, nodes: Seq<Node>, n: nat)
    requires
        w.pending == entries(nodes),
        n >= count_in(nodes),
    ensures
        walked(w, nodes, n).found == w.found + files_in(nodes),
        walked(w, nodes, n).pending.len() == 0,
    decreases n,
{
    reveal_with_fuel(files_at, 2);
    reveal_with_fuel(files_in, 2);
    reveal_with_fuel(count_at, 2);
    lemma_visible_from(nodes);
    let rest = visible_from(nodes);
    if rest.len() > 0 {
        let node = rest.first();
        let after = visited(taken(w), node.entry(), node.kind());
        let next = if node.kind() == EntryKind::Directory {
            entered(after, entries(node.nodes()))
        } else {
            after
        };
        let left = node.nodes() + rest.drop_first();
        assert(entries(rest).first() == node.entry());
        assert(entries(rest).drop_first() =~= entries(rest.drop_first()));
        assert(next.pending =~= entries(left));
        lemma_files_join(node.nodes(), rest.drop_first());
        assert(count_in(rest) == count_at(node) + count_in(rest.drop_first()));
        law_walk_finds_files(next, left, (n - 1) as nat);
        assert(next.found + files_in(left) =~= w.found + files_in(nodes));
    } else {
        assert(files_in(nodes) =~= seq![]);
        assert(w.found + files_in(nodes) =~= w.found);
    }
}

/// A hidden entry and everything below it count for nothing.
pub proof fn law_hidden_skipped(before: Seq<Node>, node: Node, after: Seq<Node>)
    requires
        hidden(node.entry().parts),
    ensures
        files_in(before + seq![node] + after) == files_in(before + after),
{
    reveal_with_fuel(files_at, 2);
    reveal_with_fuel(files_in, 2);
    lemma_files_join(before + seq![node], after);
    lemma_files_join(before, seq![node]);
    lemma_files_join(before, after);
    assert(seq![node].drop_first() =~= Seq::<Node>::empty());
    assert(files_in(seq![node]) =~= seq![]);
    assert(files_in(before) + files_in(seq![node]) =~= files_in(before));
}

proof fn lemma_visible_at(node: Node)
    ensures
        forall|i: int|
            0 <= i < files_at(node).len() ==> !hidden((#[trigger] files_at(node)[i]).parts),
    decreases node,
{
    reveal_with_fuel(files_at, 2);
    reveal_with_fuel(files_in, 2);
    match node {
        Node::Directory(_, nodes) => {
            law_found_visible(nodes);
            if !hidden(node.entry().parts) {
                assert(files_at(node) == files_in(nodes));
            }
        },
        _ => {},
    }
}

/// No file that is found is hidden.
pub proof fn law_found_visible(nodes: Seq<Node>)
    ensures
        forall|i: int|
            0 <= i < files_in(nodes).len() ==> !hidden((#[trigger] files_in(nodes)[i]).parts),
    decreases nodes,
{
    if nodes.len() > 0 {
        lemma_visible_at(nodes[0]);
        law_found_visible(nodes.drop_first());
        let all = files_in(nodes);
        let k = files_at(nodes[0]).len();
        assert forall|i: int| 0 <= i < all.len() implies !hidden((#[trigger] all[i]).parts) by {
            if i < k {
                assert(all[i] == files_at(nodes[0])[i]);
            } else {
                assert(all[i] == files_in(nodes.drop_first())[i - k]);
            }
        }
    }
}

/// The path is that of a file at or below the node, with nothing hidden on the way.
pub open spec fn open_way_at(node: Node, path: SourceView) -> bool
    decreases node,
{
    !hidden(node.entry().parts) && match node {
        Node::File(e) => e == path,
        Node::Directory(_, nodes) => open_way_in(nodes, path),
        Node::Other(_) => false,
    }
}

/// The path is that of a file at or below one of the nodes, with nothing hidden
/// on the way.
pub open spec fn open_way_in(nodes: Seq<Node>, path: SourceView) -> bool
    decreases nodes,
{
    exists|i: int| 0 <= i < nodes.len() && open_way_at(#[trigger] nodes[i], path)
}

proof fn lemma_open_way_at(node: Node, path: SourceView)
    ensures
        files_at(node).contains(path) <==> open_way_at(node, path),
    decreases node,
{
    reveal_with_fuel(files_at, 2);
    reveal_with_fuel(open_way_at, 2);
    match node {
        Node::File(e) => {
            if !hidden(e.parts) {
                assert(files_at(node)[0] == e);
            }
        },
        Node::Directory(_, nodes) => {
            law_files_on_open_ways(nodes, path);
            if !hidden(node.entry().parts) {
                assert(files_at(node) == files_in(nodes));
            }
        },
        Node::Other(_) => {},
    }
}

/// A folder is walked to its bottom: exactly the files that are reached with
/// nothing hidden on the way are found.
pub proof fn law_files_on_open_ways(nodes: Seq<Node>, path: SourceView)
    ensures
        files_in(nodes).contains(path) <==> open_way_in(nodes, path),
    decreases nodes,
{
    reveal_with_fuel(files_in, 2);
    reveal_with_fuel(open_way_in, 2);
    if nodes.len() > 0 {
        let rest = nodes.drop_first();
        let first = files_at(nodes[0]);
        lemma_open_way_at(nodes[0], path);
        law_files_on_open_ways(rest, path);
        let all = files_in(nodes);
        assert(all == first + files_in(rest));
        if all.contains(path) {
            let k = choose|k: int| 0 <= k < all.len() && all[k] == path;
            if k < first.len() {
                assert(first[k] == path);
                assert(open_way_at(nodes[0], path));
            } else {
                assert(files_in(rest)[k - first.len()] == path);
                let i = choose|i: int|
                    0 <= i < rest.len() && open_way_at(#[trigger] rest[i], path);
                assert(nodes[i + 1] == rest[i]);
            }
        }
        if open_way_in(nodes, path) {
            let i = choose|i: int| 0 <= i < nodes.len() && open_way_at(#[trigger] nodes[i], path);
            if i == 0 {
                let k = choose|k: int| 0 <= k < first.len() && first[k] == path;
                assert(all[k] == path);
            } else {
                assert(rest[i - 1] == nodes[i]);
                let k = choose|k: int| 0 <= k < files_in(rest).len() && files_in(rest)[k] == path;
                assert(all[first.len() + k] == path);
            }
        }
    }
}

// ---------------------------------------------------------------- listing

/// Sources in the order of their paths, no path twice.
pub open spec fn in_order(list: Seq<SourceView>) -> bool {
    forall|i: int, j: int|
        0 <= i < j < list.len() ==> path_lt(
            (#[trigger] list[i]).parts,
            (#[trigger] list[j]).parts,
        )
}

/// The first source of a list under each path.
pub open spec fn firsts(list: Seq<SourceView>) -> Map<Seq<PartView>, SourceView>
    decreases list.len(),
{
    if list.len() == 0 {
        Map::empty()
    } else {
        let before = firsts(list.drop_last());
        if before.dom().contains(list.last().parts) {
            before
        } else {
            before.insert(list.last().parts, list.last())
        }
    }
}

/// `sorted` lists the paths of `list`, each once and in order, with the first
/// source under each.
pub open spec fn listing(list: Seq<SourceView>, sorted: Seq<SourceView>) -> bool {
    &&& in_order(sorted)
    &&& firsts(sorted) == firsts(list)
}

proof fn lemma_firsts_dom(list: Seq<SourceView>, key: Seq<PartView>)
    ensures
        firsts(list).dom().contains(key) <==> exists|i: int|
            0 <= i < list.len() && (#[trigger] list[i]).parts == key,
        firsts(list).dom().contains(key) ==> firsts(list)[key].parts == key,
    decreases list.len(),
{
    if list.len() > 0 {
        let rest = list.drop_last();
        lemma_firsts_dom(rest, key);
        if firsts(rest).dom().contains(key) {
            let i = choose|i: int| 0 <= i < rest.len() && (#[trigger] rest[i]).parts == key;
            assert(list[i].parts == key);
        }
        if list.last().parts == key {
            assert(list[list.len() - 1].parts == key);
        }
        if exists|i: int| 0 <= i < list.len() && (#[trigger] list[i]).parts == key {
            let i = choose|i: int| 0 <= i < list.len() && (#[trigger] list[i]).parts == key;
            if i < rest.len() {
                assert(rest[i].parts == key);
            }
        }
    }
}

proof fn lemma_firsts_join(a: Seq<SourceView>, b: Seq<SourceView>)
    ensures
        firsts(a + b) == firsts(b).union_prefer_right(firsts(a)),
    decreases b.len(),
{
    if b.len() == 0 {
        assert(a + b =~= a);
        assert(firsts(b).union_prefer_right(firsts(a)) =~= firsts(a));
    } else {
        lemma_firsts_join(a, b.drop_last());
        assert((a + b).drop_last() =~= a + b.drop_last());
        assert(firsts(a + b) =~= firsts(b).union_prefer_right(firsts(a)));
    }
}

/// Every key of a list in order comes before `bound`.
spec fn all_before(list: Seq<SourceView>, bound: Seq<PartView>) -> bool {
    forall|i: int| 0 <= i < list.len() ==> path_lt((#[trigger] list[i]).parts, bound)
}

proof fn lemma_before_absent(list: Seq<SourceView>, bound: Seq<PartView>)
    requires
        all_before(list, bound),
    ensures
        !firsts(list).dom().contains(bound),
{
    lemma_firsts_dom(list, bound);
    law_path_irreflexive(bound);
}

/// In a list in order, what stands before the last source comes before it.
proof fn lemma_last_greatest(list: Seq<SourceView>, bound: Seq<PartView>)
    requires
        in_order(list),
        list.len() > 0,
        path_lt(list.last().parts, bound),
    ensures
        all_before(list, bound),
        all_before(list.drop_last(), list.last().parts),
        in_order(list.drop_last()),
{
    assert forall|i: int| 0 <= i < list.len() implies path_lt(
        (#[trigger] list[i]).parts,
        bound,
    ) by {
        if i < list.len() - 1 {
            law_path_transitive(list[i].parts, list.last().parts, bound);
        }
    }
}

/// The sources that a merge has not placed yet, and those that it has placed,
/// greatest first.
spec fn merging(
    a: Seq<SourceView>,
    b: Seq<SourceView>,
    placed: Seq<SourceView>,
    all: Map<Seq<PartView>, SourceView>,
) -> bool {
    &&& in_order(a)
    &&& in_order(b)
    &&& in_order(placed.reverse())
    &&& placed.len() > 0 ==> all_before(a, placed.last().parts) && all_before(
        b,
        placed.last().parts,
    )
    &&& firsts(b).union_prefer_right(firsts(a)).union_prefer_right(firsts(placed.reverse())) == all
}

proof fn lemma_in_order_cons(x: SourceView, list: Seq<SourceView>)
    requires
        in_order(list),
        list.len() > 0 ==> path_lt(x.parts, list.first().parts),
    ensures
        in_order(seq![x] + list),
        firsts(seq![x] + list) == firsts(list).insert(x.parts, x),
        !firsts(list).dom().contains(x.parts),
{
    let all = seq![x] + list;
    assert forall|i: int| 0 <= i < list.len() implies path_lt(
        x.parts,
        (#[trigger] list[i]).parts,
    ) by {
        if i > 0 {
            law_path_transitive(x.parts, list[0].parts, list[i].parts);
        }
    }
    assert forall|i: int, j: int| 0 <= i < j < all.len() implies path_lt(
        (#[trigger] all[i]).parts,
        (#[trigger] all[j]).parts,
    ) by {
        assert(all[j] == list[j - 1]);
        if i > 0 {
            assert(all[i] == list[i - 1]);
        }
    }
    lemma_firsts_dom(list, x.parts);
    law_path_irreflexive(x.parts);
    lemma_firsts_join(seq![x], list);
    assert(seq![x].drop_last() =~= Seq::<SourceView>::empty());
    assert(firsts(seq![x]) =~= Map::<Seq<PartView>, SourceView>::empty().insert(x.parts, x)) by {
        reveal_with_fuel(firsts, 2);
    }
    assert(firsts(all) =~= firsts(list).insert(x.parts, x));
}

proof fn lemma_pop_greatest(list: Seq<SourceView>)
    requires
        in_order(list),
        list.len() > 0,
    ensures
        in_order(list.drop_last()),
        all_before(list.drop_last(), list.last().parts),
        firsts(list) == firsts(list.drop_last()).insert(list.last().parts, list.last()),
        !firsts(list.drop_last()).dom().contains(list.last().parts),
{
    lemma_before_absent(list.drop_last(), list.last().parts);
}

proof fn lemma_place_left(
    a: Seq<SourceView>,
    b: Seq<SourceView>,
    placed: Seq<SourceView>,
    all: Map<Seq<PartView>, SourceView>,
)
    requires
        merging(a, b, placed, all),
        a.len() > 0,
        b.len() > 0 ==> path_lt(b.last().parts, a.last().parts),
    ensures
        merging(a.drop_last(), b, placed.push(a.last()), all),
{
    let x = a.last();
    lemma_pop_greatest(a);
    if b.len() > 0 {
        lemma_last_greatest(b, x.parts);
    }
    lemma_before_absent(b, x.parts);
    let done = placed.reverse();
    assert(placed.push(x).reverse() =~= seq![x] + done);
    if placed.len() > 0 {
        assert(a[a.len() - 1] == x);
        assert(done.first() == placed.last());
    }
    lemma_in_order_cons(x, done);
    assert(firsts(b).union_prefer_right(firsts(a.drop_last())).union_prefer_right(
        firsts(seq![x] + done),
    ) =~= all);
}

proof fn lemma_place_right(
    a: Seq<SourceView>,
    b: Seq<SourceView>,
    placed: Seq<SourceView>,
    all: Map<Seq<PartView>, SourceView>,
)
    requires
        merging(a, b, placed, all),
        b.len() > 0,
        a.len() > 0 ==> path_lt(a.last().parts, b.last().parts),
    ensures
        merging(a, b.drop_last(), placed.push(b.last()), all),
{
    let x = b.last();
    lemma_pop_greatest(b);
    if a.len() > 0 {
        lemma_last_greatest(a, x.parts);
    }
    lemma_before_absent(a, x.parts);
    let done = placed.reverse();
    assert(placed.push(x).reverse() =~= seq![x] + done);
    if placed.len() > 0 {
        assert(b[b.len() - 1] == x);
        assert(done.first() == placed.last());
    }
    lemma_in_order_cons(x, done);
    assert(firsts(b.drop_last()).union_prefer_right(firsts(a)).union_prefer_right(
        firsts(seq![x] + done),
    ) =~= all);
}

proof fn lemma_drop_right(
    a: Seq<SourceView>,
    b: Seq<SourceView>,
    placed: Seq<SourceView>,
    all: Map<Seq<PartView>, SourceView>,
)
    requires
        merging(a, b, placed, all),
        a.len() > 0,
        b.len() > 0,
        a.last().parts == b.last().parts,
    ensures
        merging(a, b.drop_last(), placed, all),
        b.len() > 1 ==> path_lt(b.drop_last().last().parts, a.last().parts),
{
    lemma_pop_greatest(a);
    lemma_pop_greatest(b);
    assert(firsts(b.drop_last()).union_prefer_right(firsts(a)).union_prefer_right(
        firsts(placed.reverse()),
    ) =~= all);
    if b.len() > 1 {
        assert(b[b.len() - 2] == b.drop_last().last());
        assert(b[b.len() - 1] == b.last());
    }
}

proof fn lemma_views_pop(list: Seq<Source>)
    requires
        list.len() > 0,
    ensures
        source_views(list).last() == list.last()@,
        source_views(list.drop_last()) == source_views(list).drop_last(),
{
    assert(source_views(list.drop_last()) =~= source_views(list).drop_last());
}

/// Merges two lists in order. Of two sources under one path the one in `left` stays.
fn merge(left: Vec<Source>, right: Vec<Source>) -> (r: Vec<Source>)
    requires
        in_order(source_views(left@)),
        in_order(source_views(right@)),
    ensures
        listing(source_views(left@) + source_views(right@), source_views(r@)),
{
    let ghost all = firsts(source_views(left@) + source_views(right@));
    let mut a = left;
    let mut b = right;
    let mut placed: Vec<Source> = Vec::new();
    proof {
        lemma_firsts_join(source_views(left@), source_views(right@));
        assert(source_views(placed@).reverse() =~= Seq::<SourceView>::empty());
        assert(firsts(source_views(b@)).union_prefer_right(
            firsts(source_views(a@)),
        ).union_prefer_right(Map::empty()) =~= all);
    }
    while a.len() > 0 || b.len() > 0
        invariant
            merging(source_views(a@), source_views(b@), source_views(placed@), all),
        decreases a@.len() + b@.len(),
    {
        let n: usize = a.len();
        let m: usize = b.len();
        let from_left = if n == 0 {
            false
        } else if m == 0 {
            true
        } else {
            let p = place_paths(&a[n - 1].parts, &b[m - 1].parts);
            if p == Placing::Same {
                proof {
                    lemma_views_pop(a@);
                    lemma_views_pop(b@);
                    lemma_drop_right(
                        source_views(a@),
                        source_views(b@),
                        source_views(placed@),
                        all,
                    );
                }
                let _ = b.pop();
                true
            } else {
                p == Placing::After
            }
        };
        if from_left {
            proof {
                lemma_views_pop(a@);
                if b@.len() > 0 {
                    lemma_views_pop(b@);
                }
                lemma_place_left(source_views(a@), source_views(b@), source_views(placed@), all);
            }
            if let Some(x) = a.pop() {
                proof {
                    assert(source_views(placed@.push(x)) =~= source_views(placed@).push(x@));
                }
                placed.push(x);
            }
        } else {
            proof {
                lemma_views_pop(b@);
                if a@.len() > 0 {
                    lemma_views_pop(a@);
                }
                lemma_place_right(source_views(a@), source_views(b@), source_views(placed@), all);
            }
            if let Some(x) = b.pop() {
                proof {
                    assert(source_views(placed@.push(x)) =~= source_views(placed@).push(x@));
                }
                placed.push(x);
            }
        }
    }
    let r = reversed(placed);
    proof {
        assert(firsts(source_views(placed@).reverse()) =~= all);
        assert(source_views(r@) =~= source_views(placed@).reverse());
    }
    r
}

/// Lists the paths of `list`, each once and in order, with the first source
/// under each.
pub fn sort_sources(list: Vec<Source>) -> (r: Vec<Source>)
    ensures
        listing(source_views(list@), source_views(r@)),
    decreases list@.len(),
{
    let n: usize = list.len();
    if n <= 1 {
        return list;
    }
    let ghost all = list@;
    let mut left = list;
    let right = left.split_off(n / 2);
    proof {
        assert(source_views(left@) + source_views(right@) =~= source_views(all));
        lemma_firsts_join(source_views(left@), source_views(right@));
    }
    let left = sort_sources(left);
    let right = sort_sources(right);
    proof {
        lemma_firsts_join(source_views(left@), source_views(right@));
    }
    merge(left, right)
}

/// A list has but one listing.
pub proof fn law_listing_unique(a: Seq<SourceView>, b: Seq<SourceView>)
    requires
        in_order(a),
        in_order(b),
        firsts(a) == firsts(b),
    ensures
        a == b,
    decreases a.len(),
{
    if a.len() == 0 {
        if b.len() > 0 {
            lemma_firsts_dom(b, b.last().parts);
            assert(b[b.len() - 1].parts == b.last().parts);
        }
        assert(a =~= b);
    } else {
        let x = a.last();
        lemma_firsts_dom(a, x.parts);
        lemma_firsts_dom(b, x.parts);
        assert(a[a.len() - 1].parts == x.parts);
        let j = choose|j: int| 0 <= j < b.len() && (#[trigger] b[j]).parts == x.parts;
        let y = b.last();
        lemma_firsts_dom(a, y.parts);
        lemma_firsts_dom(b, y.parts);
        assert(b[b.len() - 1].parts == y.parts);
        let i = choose|i: int| 0 <= i < a.len() && (#[trigger] a[i]).parts == y.parts;
        if x.parts != y.parts {
            assert(path_lt(b[j].parts, b[b.len() - 1].parts));
            assert(path_lt(a[i].parts, a[a.len() - 1].parts));
            law_path_transitive(x.parts, y.parts, x.parts);
            law_path_irreflexive(x.parts);
        }
        lemma_pop_greatest(a);
        lemma_pop_greatest(b);
        assert(firsts(a)[x.parts] == x && firsts(b)[x.parts] == y);
        assert(firsts(a.drop_last()) =~= firsts(a).remove(x.parts));
        assert(firsts(b.drop_last()) =~= firsts(b).remove(x.parts));
        law_listing_unique(a.drop_last(), b.drop_last());
        assert(a =~= a.drop_last().push(x));
        assert(b =~= b.drop_last().push(y));
    }
}

proof fn lemma_same_order(x: Seq<SourceView>, y: Seq<SourceView>)
    requires
        in_order(x),
        in_order(y),
        firsts(x).dom() == firsts(y).dom(),
    ensures
        x.len() == y.len(),
        forall|i: int| 0 <= i < x.len() ==> (#[trigger] x[i]).parts == y[i].parts,
    decreases x.len(),
{
    if x.len() == 0 {
        if y.len() > 0 {
            lemma_firsts_dom(y, y.last().parts);
            assert(y[y.len() - 1].parts == y.last().parts);
            assert(firsts(y).dom().contains(y.last().parts));
        }
    } else {
        let p = x.last().parts;
        lemma_firsts_dom(x, p);
        lemma_firsts_dom(y, p);
        assert(x[x.len() - 1].parts == p);
        assert(firsts(y).dom().contains(p));
        let j = choose|j: int| 0 <= j < y.len() && (#[trigger] y[j]).parts == p;
        let q = y.last().parts;
        lemma_firsts_dom(x, q);
        lemma_firsts_dom(y, q);
        assert(y[y.len() - 1].parts == q);
        assert(firsts(x).dom().contains(q));
        let i = choose|i: int| 0 <= i < x.len() && (#[trigger] x[i]).parts == q;
        if p != q {
            assert(path_lt(y[j].parts, y[y.len() - 1].parts));
            assert(path_lt(x[i].parts, x[x.len() - 1].parts));
            law_path_transitive(p, q, p);
            law_path_irreflexive(p);
        }
        lemma_pop_greatest(x);
        lemma_pop_greatest(y);
        assert(firsts(x.drop_last()).dom() =~= firsts(x).dom().remove(p));
        assert(firsts(y.drop_last()).dom() =~= firsts(y).dom().remove(p));
        lemma_same_order(x.drop_last(), y.drop_last());
        assert forall|k: int| 0 <= k < x.len() implies (#[trigger] x[k]).parts == y[k].parts by {
            if k < x.len() - 1 {
                assert(x.drop_last()[k].parts == y.drop_last()[k].parts);
            }
        }
    }
}

/// Two lists with the same paths have listings with the same paths, place by place.
pub proof fn law_listing_by_paths(
    a: Seq<SourceView>,
    x: Seq<SourceView>,
    b: Seq<SourceView>,
    y: Seq<SourceView>,
)
    requires
        listing(a, x),
        listing(b, y),
        firsts(a).dom() == firsts(b).dom(),
    ensures
        x.len() == y.len(),
        forall|i: int| 0 <= i < x.len() ==> (#[trigger] x[i]).parts == y[i].parts,
{
    lemma_same_order(x, y);
}

/// Every path of `a` is a path of `b`.
pub open spec fn paths_within(a: Seq<SourceView>, b: Seq<SourceView>) -> bool {
    forall|i: int|
        0 <= i < a.len() ==> exists|j: int|
            0 <= j < b.len() && (#[trigger] b[j]).parts == (#[trigger] a[i]).parts
}

/// Neither the order of a selection nor what is repeated in it has a part in the
/// paths that are listed.
pub proof fn law_selection_order_ignored(
    a: Seq<SourceView>,
    x: Seq<SourceView>,
    b: Seq<SourceView>,
    y: Seq<SourceView>,
)
    requires
        listing(a, x),
        listing(b, y),
        paths_within(a, b),
        paths_within(b, a),
    ensures
        x.len() == y.len(),
        forall|i: int| 0 <= i < x.len() ==> (#[trigger] x[i]).parts == y[i].parts,
{
    assert forall|key: Seq<PartView>| firsts(a).dom().contains(key) <==> firsts(
        b,
    ).dom().contains(key) by {
        lemma_firsts_dom(a, key);
        lemma_firsts_dom(b, key);
        if firsts(a).dom().contains(key) {
            let i = choose|i: int| 0 <= i < a.len() && (#[trigger] a[i]).parts == key;
            assert(a[i].parts == key);
        }
        if firsts(b).dom().contains(key) {
            let j = choose|j: int| 0 <= j < b.len() && (#[trigger] b[j]).parts == key;
            assert(b[j].parts == key);
        }
    }
    assert(firsts(a).dom() =~= firsts(b).dom());
    law_listing_by_paths(a, x, b, y);
}

/// Listing what is listed already changes nothing.
pub proof fn law_listing_idempotent(
    list: Seq<SourceView>,
    once: Seq<SourceView>,
    twice: Seq<SourceView>,
)
    requires
        listing(list, once),
        listing(once, twice),
    ensures
        twice == once,
{
    law_listing_unique(twice, once);
}

proof fn lemma_firsts_from(list: Seq<SourceView>, key: Seq<PartView>)
    requires
        firsts(list).dom().contains(key),
    ensures
        exists|i: int|
            0 <= i < list.len() && #[trigger] list[i] == firsts(list)[key] && forall|j: int|
                0 <= j < i ==> (#[trigger] list[j]).parts != key,
    decreases list.len(),
{
    let rest = list.drop_last();
    lemma_firsts_dom(rest, key);
    if firsts(rest).dom().contains(key) {
        lemma_firsts_from(rest, key);
        let i = choose|i: int|
            0 <= i < rest.len() && #[trigger] rest[i] == firsts(rest)[key] && forall|j: int|
                0 <= j < i ==> (#[trigger] rest[j]).parts != key;
        assert(list[i] == firsts(list)[key]);
        assert forall|j: int| 0 <= j < i implies (#[trigger] list[j]).parts != key by {
            assert(rest[j] == list[j]);
        }
    } else {
        let last = list.len() - 1;
        assert(list[last] == firsts(list)[key]);
        assert forall|j: int| 0 <= j < last implies (#[trigger] list[j]).parts != key by {
            assert(rest[j] == list[j]);
        }
    }
}

/// A listing has the path of every source of the list, and what it has under a
/// path is the first source of the list under that path.
pub proof fn law_listing_complete(list: Seq<SourceView>, sorted: Seq<SourceView>)
    requires
        listing(list, sorted),
    ensures
        forall|i: int|
            0 <= i < list.len() ==> exists|k: int|
                0 <= k < sorted.len() && (#[trigger] sorted[k]).parts == (
                #[trigger] list[i]).parts,
        forall|k: int|
            0 <= k < sorted.len() ==> exists|i: int|
                0 <= i < list.len() && #[trigger] list[i] == #[trigger] sorted[k] && forall|j: int|
                    0 <= j < i ==> (#[trigger] list[j]).parts != sorted[k].parts,
{
    assert forall|i: int| 0 <= i < list.len() implies exists|k: int|
        0 <= k < sorted.len() && (#[trigger] sorted[k]).parts == (#[trigger] list[i]).parts by {
        lemma_firsts_dom(list, list[i].parts);
        lemma_firsts_dom(sorted, list[i].parts);
    }
    assert forall|k: int| 0 <= k < sorted.len() implies exists|i: int|
        0 <= i < list.len() && #[trigger] list[i] == #[trigger] sorted[k] && forall|j: int|
            0 <= j < i ==> (#[trigger] list[j]).parts != sorted[k].parts by {
        let key = sorted[k].parts;
        lemma_firsts_dom(sorted, key);
        lemma_firsts_from(sorted, key);
        lemma_firsts_from(list, key);
        let m = choose|m: int|
            0 <= m < sorted.len() && #[trigger] sorted[m] == firsts(sorted)[key];
        lemma_firsts_dom(sorted, key);
        law_path_irreflexive(key);
        if m < k {
            assert(path_lt(sorted[m].parts, sorted[k].parts));
        } else if k < m {
            assert(path_lt(sorted[k].parts, sorted[m].parts));
        }
        assert(sorted[k] == firsts(list)[key]);
    }
}

/// No path is listed twice, and the listing follows the order of paths.
pub proof fn law_listing_distinct(list: Seq<SourceView>, sorted: Seq<SourceView>, i: int, j: int)
    requires
        listing(list, sorted),
        0 <= i < j < sorted.len(),
    ensures
        sorted[i].parts != sorted[j].parts,
        path_lt(sorted[i].parts, sorted[j].parts),
        !path_lt(sorted[j].parts, sorted[i].parts),
{
    law_path_irreflexive(sorted[i].parts);
    if path_lt(sorted[j].parts, sorted[i].parts) {
        law_path_transitive(sorted[i].parts, sorted[j].parts, sorted[i].parts);
    }
}

/// A listing of what a walk through a folder found lists nothing hidden.
pub proof fn law_folder_lists_no_hidden(nodes: Seq<Node>, sorted: Seq<SourceView>, k: int)
    requires
        listing(files_in(nodes), sorted),
        0 <= k < sorted.len(),
    ensures
        !hidden(sorted[k].parts),
{
    law_listing_complete(files_in(nodes), sorted);
    law_found_visible(nodes);
    let i = choose|i: int|
        0 <= i < files_in(nodes).len() && #[trigger] files_in(nodes)[i] == sorted[k];
    assert(!hidden(files_in(nodes)[i].parts));
}

// ---------------------------------------------------------------- collecting

/// A file that was selected, and whether there is one under its path.
pub struct SelectedFile {
    pub source: Source,
    pub is_file: bool,
}

/// The selected files that there are.
pub open spec fn existing(files: Seq<SelectedFile>) -> Seq<SourceView>
    decreases files.len(),
{
    if files.len() == 0 {
        seq![]
    } else if files.last().is_file {
        existing(files.drop_last()).push(files.last().source@)
    } else {
        existing(files.drop_last())
    }
}

/// The folder to walk, if one is named: a blank name names none.
pub open spec fn named_folder(folder: Option<Seq<char>>) -> Option<Seq<char>> {
    match folder {
        Some(f) => if blank(f) {
            None
        } else {
            Some(f)
        },
        None => None,
    }
}

/// The folder to walk, if one is named.
pub fn folder_to_walk(folder: Option<&str>) -> (r: Option<&str>)
    ensures
        opt_str(r) == named_folder(opt_str(folder)),
{
    match folder {
        Some(f) => if is_blank(f) {
            None
        } else {
            Some(f)
        },
        None => None,
    }
}

/// What was selected: what the walk through the named folder found, then the
/// files that there are.
pub open spec fn selected(
    folder: Option<Seq<char>>,
    walked: Seq<SourceView>,
    files: Seq<SelectedFile>,
) -> Seq<SourceView> {
    match named_folder(folder) {
        Some(_) => walked + existing(files),
        None => existing(files),
    }
}

/// Resolves a selection, a folder and/or a list of files, into a flat list of
/// the files to upload, in order and without duplicates. `is_folder` says
/// whether there is a folder under the name, and `walked` is what a walk
/// through it found.
pub fn collect_sources(
    folder: Option<&str>,
    is_folder: bool,
    walked: Vec<Source>,
    files: Vec<SelectedFile>,
) -> (r: Result<Vec<Source>, String>)
    ensures
        r is Err <==> named_folder(opt_str(folder)) is Some && !is_folder,
        r matches Err(e) ==> e@ == "Not a folder: "@ + folder->0@,
        r matches Ok(list) ==> listing(
            selected(opt_str(folder), source_views(walked@), files@),
            source_views(list@),
        ),
{
    let mut paths: Vec<Source> = Vec::new();
    proof {
        assert(source_views(paths@) =~= seq![]);
    }
    let ghost mut base: Seq<SourceView> = seq![];
    if let Some(f) = folder_to_walk(folder) {
        if !is_folder {
            return Err(join2("Not a folder: ", f));
        }
        paths = walked;
        proof {
            base = source_views(walked@);
        }
    }
    let ghost all = files@;
    for f in it: files
        invariant
            it.seq() == all,
            source_views(paths@) =~= base + existing(all.take(it.index() as int)),
    {
        let ghost k = it.index() as int;
        proof {
            assert(all.take(k + 1).drop_last() =~= all.take(k));
            assert(all.take(k + 1).last() == f);
        }
        if f.is_file {
            let source = f.source;
            proof {
                assert(source_views(paths@.push(source)) =~= source_views(paths@).push(source@));
            }
            paths.push(source);
        }
    }
    proof {
        assert(all.take(all.len() as int) =~= all);
        assert(Seq::<SourceView>::empty() + existing(all) =~= existing(all));
    }
    Ok(sort_sources(paths))
}

/// The entry of a source: its path, the name at its end, and its size. What is
/// not known is left empty.
pub open spec fn entry_of(source: SourceView, size: Option<u64>) -> EntryView {
    EntryView {
        path: source.path,
        name: match file_name(source.parts) {
            Some(name) => name,
            None => ""@,
        },
        size: match size {
            Some(n) => n,
            None => 0,
        },
    }
}

/// The entry of a source whose size may be known.
pub fn file_entry(source: &Source, size: Option<u64>) -> (r: FileEntry)
    ensures
        r@ == entry_of(source@, size),
{
    FileEntry {
        path: source.path.clone(),
        name: match name_of(&source.parts) {
            Some(name) => name.to_string(),
            None => "".to_string(),
        },
        size: match size {
            Some(n) => n,
            None => 0,
        },
    }
}

// ---------------------------------------------------------------- laws

/// Sources, lists of them and entries are seen as they are.
pub proof fn law_sources_seen(list: Seq<Source>, s: Source, e: FileEntry)
    ensures
        s@.id == s.id,
        s@.path == s.path@,
        s@.parts == part_views(s.parts@),
        source_views(list).len() == list.len(),
        forall|i: int| 0 <= i < list.len() ==> #[trigger] source_views(list)[i] == list[i]@,
        e@.path == e.path@,
        e@.name == e.name@,
        e@.size == e.size,
{
}

/// A walk visits what is to be visited one after the other, and passes over what
/// is hidden. Taking out an entry finds nothing.
pub proof fn law_walk_goes_on(w: WalkView, entry: SourceView, rest: Seq<SourceView>)
    requires
        w.pending == seq![entry] + rest,
    ensures
        !hidden(entry.parts) ==> next_entry(w) == Some(entry),
        !hidden(entry.parts) ==> taken(w) == (WalkView { pending: rest, found: w.found }),
        hidden(entry.parts) ==> next_entry(w) == next_entry(
            (WalkView { pending: rest, found: w.found }),
        ),
        hidden(entry.parts) ==> taken(w) == taken((WalkView { pending: rest, found: w.found })),
{
    assert(w.pending.first() == entry);
    assert(w.pending.drop_first() =~= rest);
}

/// A walk with nothing to visit is over, and stays as it is.
pub proof fn law_walk_over(w: WalkView)
    requires
        w.pending.len() == 0,
    ensures
        next_entry(w) is None,
        taken(w) == w,
{
}

/// A visit adds a file at the end of what was found, and nothing else. What is to
/// be visited stays as it is.
pub proof fn law_visit(w: WalkView, entry: SourceView, kind: EntryKind)
    ensures
        visited(w, entry, kind).pending == w.pending,
        kind == EntryKind::File ==> visited(w, entry, kind).found == w.found + seq![entry],
        kind != EntryKind::File ==> visited(w, entry, kind).found == w.found,
{
    assert(w.found.push(entry) =~= w.found + seq![entry]);
}

/// The entries of a directory that is entered come next, all of them and in
/// order, and what was to be visited comes after them.
pub proof fn law_enter(w: WalkView, entries: Seq<SourceView>)
    ensures
        entered(w, entries).found == w.found,
        entered(w, entries).pending.take(entries.len() as int) == entries,
        entered(w, entries).pending.skip(entries.len() as int) == w.pending,
{
    assert((entries + w.pending).take(entries.len() as int) =~= entries);
    assert((entries + w.pending).skip(entries.len() as int) =~= w.pending);
}

/// The files of two lists of nodes are those of the one, then those of the other.
/// A file that is not hidden counts once, a directory for what is in it, and
/// anything else for nothing.
pub proof fn law_folder_by_nodes(a: Seq<Node>, b: Seq<Node>, e: SourceView)
    ensures
        files_in(a + b) == files_in(a) + files_in(b),
        files_in(seq![]).len() == 0,
        !hidden(e.parts) ==> files_in(seq![Node::File(e)]) == seq![e],
        !hidden(e.parts) ==> files_in(seq![Node::Directory(e, a)]) == files_in(a),
        files_in(seq![Node::Other(e)]).len() == 0,
        hidden(e.parts) ==> files_in(seq![Node::File(e)]).len() == 0,
        hidden(e.parts) ==> files_in(seq![Node::Directory(e, a)]).len() == 0,
{
    lemma_files_join(a, b);
    lemma_files_of(Node::File(e));
    lemma_files_of(Node::Directory(e, a));
    lemma_files_of(Node::Other(e));
    reveal_with_fuel(files_at, 2);
    reveal_with_fuel(files_in, 2);
    assert(!hidden(e.parts) ==> files_at(Node::Directory(e, a)) == files_in(a));
}

proof fn lemma_files_of(node: Node)
    ensures
        files_in(seq![node]) == files_at(node),
{
    reveal_with_fuel(files_in, 2);
    reveal_with_fuel(files_at, 2);
    assert(seq![node].drop_first() =~= Seq::<Node>::empty());
    assert(files_in(Seq::<Node>::empty()) =~= Seq::<SourceView>::empty());
    assert(files_in(seq![node]) == files_at(node) + files_in(Seq::<Node>::empty()));
    assert(files_at(node) + Seq::<SourceView>::empty() =~= files_at(node));
}

/// A folder is named by a text with a character that is not white space.
pub open spec fn names_folder(folder: Option<Seq<char>>) -> bool {
    folder matches Some(f) && exists|c: int| 0 <= c < f.len() && !white(#[trigger] f[c])
}

/// A folder is walked exactly if its name is more than white space, and then under
/// the name as it is.
pub proof fn law_folder_named(folder: Option<Seq<char>>)
    ensures
        names_folder(folder) ==> named_folder(folder) == folder,
        !names_folder(folder) ==> named_folder(folder) is None,
{
    if let Some(f) = folder {
        law_blank(f);
    }
}

proof fn lemma_existing_join(a: Seq<SelectedFile>, b: Seq<SelectedFile>)
    ensures
        existing(a + b) == existing(a) + existing(b),
    decreases b.len(),
{
    if b.len() == 0 {
        assert(a + b =~= a);
        assert(existing(a) + existing(b) =~= existing(a));
    } else {
        lemma_existing_join(a, b.drop_last());
        assert((a + b).drop_last() =~= a + b.drop_last());
        assert((a + b).last() == b.last());
        assert(existing(a + b) =~= existing(a) + existing(b));
    }
}

/// What is selected besides a folder is each file of the list that there is, in
/// the order of the list.
pub proof fn law_files_selected(a: Seq<SelectedFile>, f: SelectedFile, b: Seq<SelectedFile>)
    ensures
        f.is_file ==> existing(a + seq![f] + b) == existing(a) + seq![f.source@] + existing(b),
        !f.is_file ==> existing(a + seq![f] + b) == existing(a) + existing(b),
        existing(seq![]).len() == 0,
{
    lemma_existing_join(a + seq![f], b);
    lemma_existing_join(a, seq![f]);
    reveal_with_fuel(existing, 2);
    assert(seq![f].drop_last() =~= Seq::<SelectedFile>::empty());
    assert(seq![f].last() == f);
    if f.is_file {
        assert(existing(seq![f]) =~= seq![f.source@]);
        assert(existing(a + seq![f] + b) =~= existing(a) + seq![f.source@] + existing(b));
    } else {
        assert(existing(seq![f]) =~= seq![]);
        assert(existing(a) + existing(seq![f]) =~= existing(a));
    }
}

proof fn lemma_existing_place(files: Seq<SelectedFile>, j: int)
    requires
        0 <= j < files.len(),
        files[j].is_file,
    ensures
        existing(files.take(j)).len() < existing(files).len(),
        existing(files)[existing(files.take(j)).len() as int] == files[j].source@,
        forall|q: int|
            0 <= q < existing(files.take(j)).len() ==> #[trigger] existing(files)[q] == existing(
                files.take(j),
            )[q],
{
    let a = files.take(j);
    let b = files.skip(j + 1);
    assert(files =~= a + seq![files[j]] + b);
    law_files_selected(a, files[j], b);
}

proof fn lemma_existing_from(files: Seq<SelectedFile>, k: int)
    requires
        0 <= k < existing(files).len(),
    ensures
        exists|j: int|
            0 <= j < files.len() && (#[trigger] files[j]).is_file && files[j].source@ == existing(
                files,
            )[k],
    decreases files.len(),
{
    let rest = files.drop_last();
    if files.last().is_file && k == existing(rest).len() {
        assert(files[files.len() - 1].source@ == existing(files)[k]);
    } else {
        lemma_existing_from(rest, k);
        let j = choose|j: int|
            0 <= j < rest.len() && (#[trigger] rest[j]).is_file && rest[j].source@ == existing(
                rest,
            )[k];
        assert(files[j] == rest[j]);
    }
}

proof fn lemma_listed(list: Seq<SourceView>, sorted: Seq<SourceView>, i: int) -> (k: int)
    requires
        listing(list, sorted),
        0 <= i < list.len(),
    ensures
        0 <= k < sorted.len(),
        sorted[k].parts == list[i].parts,
{
    lemma_firsts_dom(list, list[i].parts);
    lemma_firsts_dom(sorted, list[i].parts);
    choose|k: int| 0 <= k < sorted.len() && (#[trigger] sorted[k]).parts == list[i].parts
}

proof fn lemma_listed_from(list: Seq<SourceView>, sorted: Seq<SourceView>, k: int) -> (i: int)
    requires
        listing(list, sorted),
        0 <= k < sorted.len(),
    ensures
        0 <= i < list.len(),
        list[i] == sorted[k],
        forall|j: int| 0 <= j < i ==> (#[trigger] list[j]).parts != sorted[k].parts,
{
    law_listing_complete(list, sorted);
    let x = sorted[k];
    choose|i: int|
        0 <= i < list.len() && #[trigger] list[i] == x && forall|j: int|
            0 <= j < i ==> (#[trigger] list[j]).parts != x.parts
}

/// The first source of a list under its path is in the listing.
proof fn lemma_first_listed(list: Seq<SourceView>, sorted: Seq<SourceView>, p: int)
    requires
        listing(list, sorted),
        0 <= p < list.len(),
        forall|q: int| 0 <= q < p ==> (#[trigger] list[q]).parts != list[p].parts,
    ensures
        sorted.contains(list[p]),
{
    let k = lemma_listed(list, sorted, p);
    let i = lemma_listed_from(list, sorted, k);
    if p < i {
        assert(list[p].parts != sorted[k].parts);
    } else if i < p {
        assert(list[i].parts != list[p].parts);
    }
    assert(sorted[k] == list[p]);
}

/// Where a folder is named, the path of every file that the walk through it found
/// is collected, whatever the list of files is. So is the path of every file of
/// that list that there is. Nothing else is collected.
pub proof fn law_collected_paths(
    folder: Option<Seq<char>>,
    walked: Seq<SourceView>,
    files: Seq<SelectedFile>,
    sorted: Seq<SourceView>,
)
    requires
        listing(selected(folder, walked, files), sorted),
    ensures
        names_folder(folder) ==> forall|i: int|
            0 <= i < walked.len() ==> exists|k: int|
                0 <= k < sorted.len() && (#[trigger] sorted[k]).parts == (
                #[trigger] walked[i]).parts,
        forall|j: int|
            0 <= j < files.len() && (#[trigger] files[j]).is_file ==> exists|k: int|
                0 <= k < sorted.len() && (#[trigger] sorted[k]).parts == files[j].source@.parts,
        forall|k: int|
            0 <= k < sorted.len() ==> (names_folder(folder) && walked.contains(
                #[trigger] sorted[k],
            )) || exists|j: int|
                0 <= j < files.len() && (#[trigger] files[j]).is_file && files[j].source@
                    == sorted[k],
{
    let list = selected(folder, walked, files);
    let named = names_folder(folder);
    let n: int = if named {
        walked.len() as int
    } else {
        0
    };
    law_folder_named(folder);
    assert(list == if named {
        walked + existing(files)
    } else {
        existing(files)
    });
    if named {
        assert forall|i: int| 0 <= i < walked.len() implies exists|k: int|
            0 <= k < sorted.len() && (#[trigger] sorted[k]).parts == (
            #[trigger] walked[i]).parts by {
            let k = lemma_listed(list, sorted, i);
            assert(sorted[k].parts == walked[i].parts);
        }
    }
    assert forall|j: int| 0 <= j < files.len() && (#[trigger] files[j]).is_file implies exists|
        k: int,
    |
        0 <= k < sorted.len() && (#[trigger] sorted[k]).parts == files[j].source@.parts by {
        lemma_existing_place(files, j);
        let p = n + existing(files.take(j)).len();
        assert(list[p] == files[j].source@);
        let k = lemma_listed(list, sorted, p);
        assert(sorted[k].parts == files[j].source@.parts);
    }
    assert forall|k: int| 0 <= k < sorted.len() implies (named && walked.contains(
        #[trigger] sorted[k],
    )) || exists|j: int|
        0 <= j < files.len() && (#[trigger] files[j]).is_file && files[j].source@ == sorted[k] by {
        let i = lemma_listed_from(list, sorted, k);
        if i < n {
            assert(walked[i] == sorted[k]);
        } else {
            lemma_existing_from(files, i - n);
        }
    }
}

/// Under a path that was found more than once, what the walk found first is
/// collected. A file of the list is collected under its path if the walk found
/// none there and the list has none before it.
pub proof fn law_collected_first(
    folder: Option<Seq<char>>,
    walked: Seq<SourceView>,
    files: Seq<SelectedFile>,
    sorted: Seq<SourceView>,
    i: int,
)
    requires
        listing(selected(folder, walked, files), sorted),
    ensures
        names_folder(folder) && 0 <= i < walked.len() && (forall|h: int|
            0 <= h < i ==> (#[trigger] walked[h]).parts != walked[i].parts) ==> sorted.contains(
            walked[i],
        ),
        0 <= i < files.len() && files[i].is_file && (names_folder(folder) ==> forall|h: int|
            0 <= h < walked.len() ==> (#[trigger] walked[h]).parts != files[i].source@.parts) && (
        forall|h: int|
            0 <= h < i && (#[trigger] files[h]).is_file ==> files[h].source@.parts
                != files[i].source@.parts) ==> sorted.contains(files[i].source@),
{
    let list = selected(folder, walked, files);
    let named = names_folder(folder);
    let n: int = if named {
        walked.len() as int
    } else {
        0
    };
    law_folder_named(folder);
    if named && 0 <= i < walked.len() && (forall|h: int|
        0 <= h < i ==> (#[trigger] walked[h]).parts != walked[i].parts) {
        assert(list[i] == walked[i]);
        assert forall|q: int| 0 <= q < i implies (#[trigger] list[q]).parts != list[i].parts by {
            assert(list[q] == walked[q]);
        }
        lemma_first_listed(list, sorted, i);
    }
    if 0 <= i < files.len() && files[i].is_file && (named ==> forall|h: int|
        0 <= h < walked.len() ==> (#[trigger] walked[h]).parts != files[i].source@.parts) && (
    forall|h: int|
        0 <= h < i && (#[trigger] files[h]).is_file ==> files[h].source@.parts
            != files[i].source@.parts) {
        lemma_existing_place(files, i);
        let head = files.take(i);
        let p = n + existing(head).len();
        assert(list[p] == files[i].source@);
        assert forall|q: int| 0 <= q < p implies (#[trigger] list[q]).parts != list[p].parts by {
            if q < n {
                assert(list[q] == walked[q]);
            } else {
                assert(list[q] == existing(files)[q - n]);
                lemma_existing_from(head, q - n);
                let h = choose|h: int|
                    0 <= h < head.len() && (#[trigger] head[h]).is_file && head[h].source@
                        == existing(head)[q - n];
                assert(files[h] == head[h]);
            }
        }
        lemma_first_listed(list, sorted, p);
    }
}

/// What is collected stands in the order of its paths, each path once.
pub proof fn law_collected_in_order(
    folder: Option<Seq<char>>,
    walked: Seq<SourceView>,
    files: Seq<SelectedFile>,
    sorted: Seq<SourceView>,
    i: int,
    j: int,
)
    requires
        listing(selected(folder, walked, files), sorted),
        0 <= i < j < sorted.len(),
    ensures
        path_lt(sorted[i].parts, sorted[j].parts),
        sorted[i].parts != sorted[j].parts,
{
    law_listing_distinct(selected(folder, walked, files), sorted, i, j);
}

/// The entry of a source has its path as it is shown, the name at its end, and its
/// size. A name that there is none of is empty, and a size that is not known is 0.
pub proof fn law_entry(source: SourceView, size: u64)
    ensures
        entry_of(source, Some(size)).size == size,
        entry_of(source, None).size == 0,
        entry_of(source, Some(size)).path == source.path,
        entry_of(source, None).path == source.path,
        file_name(source.parts) matches Some(name) ==> entry_of(source, Some(size)).name == name,
        file_name(source.parts) is None ==> entry_of(source, Some(size)).name.len() == 0,
        entry_of(source, None).name == entry_of(source, Some(size)).name,
{
    reveal_strlit("");
}

} // verus!
