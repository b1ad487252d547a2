//! What each op does to a document, told by what can be read off the document afterwards.
use crate::commit::PatchErrorView;
use crate::doc;
use crate::doc::Doc;
use crate::offsets::{CharRange, Pos};
use crate::ops::{NodeKind, OpView, SnapView};
use crate::tree;
use vstd::prelude::*;

verus! {

/// An op that worked counts as one revision and changes neither the root nor which node is the
/// table of contents.
pub open spec fn one_revision_on(doc: Doc, next: Doc) -> bool {
    &&& next.root == doc.root
    &&& next.toc == doc.toc
    &&& doc.rev < u64::MAX ==> next.rev == doc.rev + 1
}

/// Only this node was changed, and no node came or went.
pub open spec fn only_changed(doc: Doc, next: Doc, id: Seq<char>) -> bool {
    &&& one_revision_on(doc, next)
    &&& forall|k: Seq<char>| #[trigger]
        next.nodes.map.dom().contains(k) <==> doc.nodes.map.dom().contains(k)
    &&& forall|k: Seq<char>|
        k != id && #[trigger] doc.nodes.map.dom().contains(k) ==> next.nodes.map[k]
            == doc.nodes.map[k]
}

/// Setting the text of a node: the node then has the text, kind and children stay, every other node
/// stays, and the inverse sets the old text. It fails exactly if there is no such node.
pub proof fn law_set_markdown(doc: Doc, target: Seq<char>, md: Seq<char>)
    ensures
        match doc.applied(target, OpView::SetMarkdown { md }) {
            Ok((next, inverse)) => {
                let was = doc.nodes.map[target];
                &&& doc.nodes.map.dom().contains(target)
                &&& next.nodes.map[target].text == md
                &&& next.nodes.map[target].kind == was.kind
                &&& next.nodes.map[target].children == was.children
                &&& only_changed(doc, next, target)
                &&& inverse == (OpView::SetMarkdown { md: was.text })
            },
            Err(e) => !doc.nodes.map.dom().contains(target) && e == PatchErrorView::UnknownTarget(
                target,
            ),
        },
{
}

/// Setting the kind of a node: the node then has the kind, text and children stay, every other node
/// stays, and the inverse sets the old kind. It fails exactly if there is no such node.
pub proof fn law_set_kind(doc: Doc, target: Seq<char>, kind: NodeKind)
    ensures
        match doc.applied(target, OpView::SetKind { kind }) {
            Ok((next, inverse)) => {
                let was = doc.nodes.map[target];
                &&& doc.nodes.map.dom().contains(target)
                &&& next.nodes.map[target].kind == kind
                &&& next.nodes.map[target].text == was.text
                &&& next.nodes.map[target].children == was.children
                &&& only_changed(doc, next, target)
                &&& inverse == (OpView::SetKind { kind: was.kind })
            },
            Err(e) => !doc.nodes.map.dom().contains(target) && e == PatchErrorView::UnknownTarget(
                target,
            ),
        },
{
}

/// Replacing a span: the characters before the span stay where they are, then comes the new text,
/// then the characters behind the span. The inverse replaces the new text by what was taken out. It
/// fails exactly if there is no such node, or if the span does not lie in its text.
pub proof fn law_set_span(doc: Doc, target: Seq<char>, start: usize, end: usize, text: Seq<char>)
    requires
        start + text.len() <= usize::MAX,
    ensures
        ({
            let range = CharRange { start: Pos(start), end: Pos(end) };
            let was = doc.nodes.map[target];
            match doc.applied(target, OpView::SetSpan { range, text }) {
                Ok((next, inverse)) => {
                    let now = next.nodes.map[target];
                    &&& doc.nodes.map.dom().contains(target)
                    &&& start <= end <= was.text.len()
                    &&& now.text.len() == start + text.len() + (was.text.len() - end)
                    &&& forall|i: int| 0 <= i < start ==> #[trigger] now.text[i] == was.text[i]
                    &&& forall|i: int|
                        0 <= i < text.len() ==> now.text[start + i] == #[trigger] text[i]
                    &&& forall|i: int|
                        end <= i < was.text.len() ==> now.text[start + text.len() + (i - end)]
                            == #[trigger] was.text[i]
                    &&& now.kind == was.kind
                    &&& now.children == was.children
                    &&& only_changed(doc, next, target)
                    &&& inverse matches OpView::SetSpan { range: back, text: taken }
                    &&& back.start.0 == start
                    &&& back.end.0 == start + text.len()
                    &&& taken.len() == end - start
                    &&& forall|i: int|
                        0 <= i < taken.len() ==> #[trigger] taken[i] == was.text[start + i]
                },
                Err(e) => if !doc.nodes.map.dom().contains(target) {
                    e == PatchErrorView::UnknownTarget(target)
                } else {
                    !(start <= end <= was.text.len()) && e == PatchErrorView::RangeOutOfBounds(range)
                },
            }
        }),
{
}

/// `now` is `was` with `id` put in at position `index`.
pub open spec fn put_in(was: Seq<Seq<char>>, now: Seq<Seq<char>>, index: int, id: Seq<char>) -> bool {
    &&& 0 <= index <= was.len()
    &&& now.len() == was.len() + 1
    &&& now[index] == id
    &&& now.take(index) == was.take(index)
    &&& now.skip(index + 1) == was.skip(index)
}

/// Inserting a section: it becomes child number `index` of the parent, for every index up to the
/// number of children; it is a paragraph with the text and without children; every other node stays;
/// and the inverse removes it. It fails exactly if there is no such parent, the id is in use, or the
/// index lies beyond the end.
pub proof fn law_insert_section(
    doc: Doc,
    target: Seq<char>,
    parent: Seq<char>,
    index: usize,
    id: Seq<char>,
    text: Seq<char>,
)
    ensures
        match doc.applied(target, OpView::InsertSection { parent, index, id, text }) {
            Ok((next, inverse)) => {
                let was = doc.nodes.map[parent];
                let now = next.nodes.map[parent];
                &&& doc.nodes.map.dom().contains(parent)
                &&& !doc.nodes.map.dom().contains(id)
                &&& put_in(was.children, now.children, index as int, id)
                &&& now.kind == was.kind
                &&& now.text == was.text
                &&& next.nodes.map[id].kind == NodeKind::Paragraph
                &&& next.nodes.map[id].text == text
                &&& next.nodes.map[id].children.len() == 0
                &&& one_revision_on(doc, next)
                &&& forall|k: Seq<char>| #[trigger]
                    next.nodes.map.dom().contains(k) <==> k == id || doc.nodes.map.dom().contains(k)
                &&& forall|k: Seq<char>|
                    k != parent && #[trigger] doc.nodes.map.dom().contains(k) ==> next.nodes.map[k]
                        == doc.nodes.map[k]
                &&& inverse == (OpView::RemoveNode { id })
            },
            Err(e) => if !doc.nodes.map.dom().contains(parent) {
                e == PatchErrorView::UnknownTarget(parent)
            } else if doc.nodes.map.dom().contains(id) {
                e == PatchErrorView::DuplicateNode(id)
            } else {
                let len = doc.nodes.map[parent].children.len();
                index > len && e == (PatchErrorView::IndexOutOfBounds { parent, index, len })
            },
        },
{
    if let Ok((next, _)) = doc.applied(target, OpView::InsertSection { parent, index, id, text }) {
        let was = doc.nodes.map[parent].children;
        let now = next.nodes.map[parent].children;
        assert(now.take(index as int) =~= was.take(index as int));
        assert(now.skip(index + 1) =~= was.skip(index as int));
    }
}

/// `k` is `id` or stands somewhere below it.
pub open spec fn at_or_below(doc: Doc, id: Seq<char>, k: Seq<char>) -> bool {
    tree::reachable(doc.nodes.map, id, k)
}

proof fn lemma_snapshot_is_what_is_below(doc: Doc, id: Seq<char>, k: Seq<char>)
    requires
        doc.sound(),
        doc.nodes.has(id),
    ensures
        doc::mentions(doc::snapshot_of(doc.nodes.map, id), k) <==> at_or_below(doc, id, k),
{
    let m = doc.nodes.map;
    assert(doc::grounded(m, id));
    let f = choose|f: nat| doc::whole(m, id, f);
    tree::lemma_snapshot(m, id, f);
    if doc::mentions(doc::snap(m, id, f), k) {
        assert(tree::hangs(m, id, id, 0));
        tree::lemma_below_hangs(m, id, id, f, k, 0);
    }
    if at_or_below(doc, id, k) {
        let n = choose|n: nat| tree::hangs(m, id, k, n);
        tree::lemma_walk_reaches(m, id, f, k, n);
    }
}

proof fn lemma_child_ids(m: Map<Seq<char>, doc::NodeView>, id: Seq<char>, f: nat)
    requires
        f > 0,
    ensures
        doc::snap(m, id, f).child_ids() == m[id].children,
{
    let s = doc::snap(m, id, f);
    let kids = m[id].children;
    assert forall|i: int| 0 <= i < kids.len() implies #[trigger] s.child_ids()[i] == kids[i] by {
        assert(s.children[i] == doc::snap(m, kids[i], (f - 1) as nat));
    }
    assert(s.child_ids() =~= kids);
}

/// Removing a node: it goes with all that stands below it, and nothing else goes; it is taken off
/// the list of its parent, whose other children keep their order; every other node stays. The
/// inverse rebuilds it at its place. It fails exactly if there is no such node or it is the root.
pub proof fn law_remove_node(
    doc: Doc,
    target: Seq<char>,
    id: Seq<char>,
    parent: Seq<char>,
    index: int,
    k: Seq<char>,
)
    requires
        doc.sound(),
    ensures
        match doc.applied(target, OpView::RemoveNode { id }) {
            Ok((next, inverse)) => {
                &&& doc.nodes.map.dom().contains(id)
                &&& id != doc.root
                &&& one_revision_on(doc, next)
                &&& next.nodes.map.dom().contains(k) <==> doc.nodes.map.dom().contains(k)
                    && !at_or_below(doc, id, k)
                &&& tree::lists(doc.nodes.map, parent, index, id) ==> {
                    let was = doc.nodes.map[parent];
                    let now = next.nodes.map[parent];
                    &&& put_in(now.children, was.children, index, id)
                    &&& now.kind == was.kind
                    &&& now.text == was.text
                    &&& next.nodes.map.dom().contains(k) && k != parent ==> next.nodes.map[k]
                        == doc.nodes.map[k]
                    &&& inverse matches OpView::CreateNode { parent: p, index: i, snapshot: s }
                    &&& p == parent
                    &&& i == index
                    &&& s.id == id
                    &&& s.kind == doc.nodes.map[id].kind
                    &&& s.text == doc.nodes.map[id].text
                    &&& s.child_ids() == doc.nodes.map[id].children
                }
            },
            Err(e) => if !doc.nodes.map.dom().contains(id) {
                e == PatchErrorView::UnknownTarget(id)
            } else {
                id == doc.root && e == PatchErrorView::NotRemovable(id)
            },
        },
{
    let d = doc.nodes;
    let m = d.map;
    if d.has(id) {
        if doc::parent_of(d, id) is Some {
            tree::lemma_parent_lists(d, id);
            let (p, i) = doc::parent_of(d, id)->Some_0;
            assert(tree::lists(m, p, i, id));
            if tree::lists(m, parent, index, id) {
                assert(p == parent && i == index);
            }
            tree::lemma_pruned(d, doc.root, p, i, id, k);
            tree::lemma_pruned(d, doc.root, p, i, id, p);
            lemma_snapshot_is_what_is_below(doc, id, k);
            if p == parent {
                let was = m[p].children;
                let now = was.remove(i);
                assert(was.take(i) =~= now.take(i));
                assert(was.skip(i + 1) =~= now.skip(i));
            }
            assert(doc::grounded(m, id));
            let f = choose|f: nat| doc::whole(m, id, f);
            tree::lemma_snapshot(m, id, f);
            lemma_child_ids(m, id, f);
            assert(m.dom().contains(p));
        } else if id != doc.root {
            assert(tree::reachable(m, doc.root, id));
            let n = choose|n: nat| tree::hangs(m, doc.root, id, n);
            let (p, i) = choose|p: Seq<char>, i: int| #[trigger]
                tree::lists(m, p, i, id) && tree::hangs(m, doc.root, p, (n - 1) as nat);
            tree::lemma_parent_unique(d, p, i, id);
        }
    }
}

/// `part` is the snapshot or stands somewhere inside it.
pub open spec fn is_part(s: SnapView, part: SnapView) -> bool
    decreases s,
{
    s == part || exists|i: int| 0 <= i < s.children.len() && is_part(#[trigger] s.children[i], part)
}

proof fn lemma_part_reads_back(
    m: Map<Seq<char>, doc::NodeView>,
    id: Seq<char>,
    f: nat,
    part: SnapView,
)
    requires
        doc::whole(m, id, f),
        is_part(doc::snap(m, id, f), part),
    ensures
        m.dom().contains(part.id),
        m[part.id].kind == part.kind,
        m[part.id].text == part.text,
        m[part.id].children == part.child_ids(),
    decreases f,
{
    let s = doc::snap(m, id, f);
    if s == part {
        lemma_child_ids(m, id, f);
    } else {
        let i = choose|i: int| 0 <= i < s.children.len() && is_part(#[trigger] s.children[i], part);
        assert(s.children[i] == doc::snap(m, m[id].children[i], (f - 1) as nat));
        lemma_part_reads_back(m, m[id].children[i], (f - 1) as nat, part);
    }
}

/// Rebuilding a subtree: its top becomes child number `index` of the parent; every node of the
/// snapshot is there with its kind, its text and its children in order; every other node stays; and
/// the inverse removes the top. It fails exactly if there is no such parent, an id of the snapshot
/// is in use or stands in it twice, or the index lies beyond the end.
pub proof fn law_create_node(
    doc: Doc,
    target: Seq<char>,
    parent: Seq<char>,
    index: usize,
    snapshot: SnapView,
    part: SnapView,
    k: Seq<char>,
)
    ensures
        match doc.applied(target, OpView::CreateNode { parent, index, snapshot }) {
            Ok((next, inverse)) => {
                let was = doc.nodes.map[parent];
                let now = next.nodes.map[parent];
                &&& doc.nodes.map.dom().contains(parent)
                &&& put_in(was.children, now.children, index as int, snapshot.id)
                &&& now.kind == was.kind
                &&& now.text == was.text
                &&& is_part(snapshot, part) ==> {
                    &&& !doc.nodes.map.dom().contains(part.id)
                    &&& next.nodes.map.dom().contains(part.id)
                    &&& next.nodes.map[part.id].kind == part.kind
                    &&& next.nodes.map[part.id].text == part.text
                    &&& next.nodes.map[part.id].children == part.child_ids()
                }
                &&& one_revision_on(doc, next)
                &&& next.nodes.map.dom().contains(k) <==> doc.nodes.map.dom().contains(k)
                    || doc::mentions(snapshot, k)
                &&& k != parent && doc.nodes.map.dom().contains(k) ==> next.nodes.map[k]
                    == doc.nodes.map[k]
                &&& inverse == (OpView::RemoveNode { id: snapshot.id })
            },
            Err(e) => if !doc.nodes.map.dom().contains(parent) {
                e == PatchErrorView::UnknownTarget(parent)
            } else if tree::distinct(snapshot) && !exists|x: Seq<char>| #[trigger]
                doc::mentions(snapshot, x) && doc.nodes.map.dom().contains(x) {
                let len = doc.nodes.map[parent].children.len();
                index > len && e == (PatchErrorView::IndexOutOfBounds { parent, index, len })
            } else {
                e matches PatchErrorView::DuplicateNode(x) && doc::mentions(snapshot, x)
            },
        },
{
    let d = doc.nodes;
    let ids = doc::snap_ids(snapshot);
    tree::lemma_clash(d, snapshot);
    match doc.applied(target, OpView::CreateNode { parent, index, snapshot }) {
        Ok((next, _)) => {
            tree::lemma_planted(d, parent, index, snapshot, k);
            tree::lemma_planted(d, parent, index, snapshot, parent);
            tree::lemma_planted_reads_back(d, parent, index, snapshot);
            let was = d.map[parent].children;
            let now = next.nodes.map[parent].children;
            assert(now.take(index as int) =~= was.take(index as int));
            assert(now.skip(index + 1) =~= was.skip(index as int));
            if is_part(snapshot, part) {
                lemma_part_reads_back(next.nodes.map, snapshot.id, tree::depth(snapshot), part);
                lemma_part_mentioned(snapshot, part);
            }
        },
        Err(e) => {
            if d.has(parent) && doc::clash(d, ids) is Some {
                let i = choose|i: int| doc::first_clash(d, ids, i);
                assert(ids.contains(ids[i]));
                tree::lemma_ids_mention(snapshot, ids[i]);
                if tree::distinct(snapshot) {
                    lemma_distinct_ids(snapshot);
                }
            }
        },
    }
}

proof fn lemma_part_mentioned(s: SnapView, part: SnapView)
    requires
        is_part(s, part),
    ensures
        doc::mentions(s, part.id),
    decreases s,
{
    if s != part {
        let i = choose|i: int| 0 <= i < s.children.len() && is_part(#[trigger] s.children[i], part);
        lemma_part_mentioned(s.children[i], part);
    }
}

proof fn lemma_distinct_ids(s: SnapView)
    requires
        tree::distinct(s),
    ensures
        doc::snap_ids(s).no_duplicates(),
    decreases s, s.children.len() + 1,
{
    let n = s.children.len();
    let kids = doc::snap_ids_children(s, n);
    let all = doc::snap_ids(s);
    lemma_distinct_ids_children(s, n);
    assert forall|x: int| 0 <= x < kids.len() implies #[trigger] kids[x] != s.id by {
        assert(kids.contains(kids[x]));
        tree::lemma_ids_mention_children(s, n, kids[x]);
    }
    assert forall|x: int, y: int| 0 <= x < all.len() && 0 <= y < all.len() && x != y implies all[x]
        != all[y] by {
        if x > 0 {
            assert(all[x] == kids[x - 1]);
        }
        if y > 0 {
            assert(all[y] == kids[y - 1]);
        }
    }
}

proof fn lemma_distinct_ids_children(s: SnapView, n: nat)
    requires
        tree::distinct(s),
        n <= s.children.len(),
    ensures
        doc::snap_ids_children(s, n).no_duplicates(),
    decreases s, n,
{
    if n > 0 {
        let head = doc::snap_ids_children(s, (n - 1) as nat);
        let tail = doc::snap_ids(s.children[n - 1]);
        let both = doc::snap_ids_children(s, n);
        lemma_distinct_ids_children(s, (n - 1) as nat);
        lemma_distinct_ids(s.children[n - 1]);
        assert forall|x: int, y: int| 0 <= x < both.len() && 0 <= y < both.len() && x
            < y implies both[x] != both[y] by {
            if x < head.len() && y >= head.len() {
                assert(head.contains(both[x]));
                assert(tail[y - head.len()] == both[y]);
                assert(tail.contains(both[y]));
                tree::lemma_ids_mention_children(s, (n - 1) as nat, both[x]);
                tree::lemma_ids_mention(s.children[n - 1], both[y]);
            } else if y < head.len() {
                assert(head[x] != head[y]);
            } else {
                assert(tail[x - head.len()] != tail[y - head.len()]);
            }
        }
    }
}

/// The ids of a snapshot: its own comes first, and then those of its children, in order.
pub proof fn law_ids_of_a_snapshot(s: SnapView, child: SnapView)
    ensures
        s.children.len() == 0 ==> doc::snap_ids(s) == seq![s.id],
        doc::snap_ids(SnapView { children: s.children.push(child), ..s }) == doc::snap_ids(s)
            + doc::snap_ids(child),
{
    let more = SnapView { children: s.children.push(child), ..s };
    lemma_ids_prefix(s, child, s.children.len());
    assert(doc::snap_ids(more) =~= doc::snap_ids(s) + doc::snap_ids(child));
    if s.children.len() == 0 {
        assert(doc::snap_ids(s) =~= seq![s.id]);
    }
}

proof fn lemma_ids_prefix(s: SnapView, child: SnapView, n: nat)
    requires
        n <= s.children.len(),
    ensures
        doc::snap_ids_children(SnapView { children: s.children.push(child), ..s }, n)
            == doc::snap_ids_children(s, n),
    decreases n,
{
    if n > 0 {
        lemma_ids_prefix(s, child, (n - 1) as nat);
    }
}

/// The id that stands in the way of a subtree is named: the first of its ids that is in use, or that
/// the subtree has twice.
pub proof fn law_id_that_stands_in_the_way(
    doc: Doc,
    target: Seq<char>,
    parent: Seq<char>,
    index: usize,
    snapshot: SnapView,
    i: int,
    j: int,
)
    requires
        doc.nodes.map.dom().contains(parent),
        0 <= i < doc::snap_ids(snapshot).len(),
        0 <= j < doc::snap_ids(snapshot).len(),
        doc.nodes.map.dom().contains(doc::snap_ids(snapshot)[i]) || (j != i && doc::snap_ids(
            snapshot,
        )[j] == doc::snap_ids(snapshot)[i]),
        forall|h: int|
            0 <= h < i ==> !doc.nodes.map.dom().contains(#[trigger] doc::snap_ids(snapshot)[h]),
        forall|h: int, l: int|
            0 <= h < i && 0 <= l < doc::snap_ids(snapshot).len() && l != h
                ==> #[trigger] doc::snap_ids(snapshot)[h] != #[trigger] doc::snap_ids(snapshot)[l],
    ensures
        doc.applied(target, OpView::CreateNode { parent, index, snapshot }) == Err::<
            (Doc, OpView),
            PatchErrorView,
        >(PatchErrorView::DuplicateNode(doc::snap_ids(snapshot)[i])),
{
    let d = doc.nodes;
    let ids = doc::snap_ids(snapshot);
    assert(doc::clashes(d, ids, i));
    assert forall|h: int| 0 <= h < i implies !#[trigger] doc::clashes(d, ids, h) by {
        assert(!d.has(ids[h]));
        if exists|l: int| 0 <= l < ids.len() && l != h && #[trigger] ids[l] == ids[h] {
            let l = choose|l: int| 0 <= l < ids.len() && l != h && #[trigger] ids[l] == ids[h];
            assert(ids[h] != ids[l]);
        }
    }
    assert(doc::first_clash(d, ids, i));
    let k = choose|k: int| doc::first_clash(d, ids, k);
    assert(doc::first_clash(d, ids, k));
    if k < i {
        assert(!doc::clashes(d, ids, k));
    } else if i < k {
        assert(!doc::clashes(d, ids, i));
    }
}

} // verus!
