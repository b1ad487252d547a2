//! The prose document as mathematics: a tree of nodes kept in a table, and what each op does to it.
use crate::commit::PatchErrorView;
use crate::offsets::CharRange;
use crate::ops::{NodeKind, OpView, PatchView, SnapView, SourceView};
use crate::textmap::Dict;
use vstd::prelude::*;

verus! {

/// One node of the table.
#[verifier::ext_equal]
pub struct NodeView {
    pub kind: NodeKind,
    pub text: Seq<char>,
    /// Ids of the children, in order.
    pub children: Seq<Seq<char>>,
}

/// The node table.
pub type Nodes = Dict<NodeView>;

/// What a `ProseModel` holds.
#[verifier::ext_equal]
pub struct Doc {
    pub nodes: Nodes,
    /// Id of the top-level container.
    pub root: Seq<char>,
    /// Revision number: the count of ops applied.
    pub rev: u64,
    /// Id of the node that holds the table of contents, if one is registered.
    pub toc: Option<Seq<char>>,
}

impl NodeView {
    pub open spec fn leaf(text: Seq<char>) -> Self {
        NodeView { kind: NodeKind::Paragraph, text, children: Seq::empty() }
    }

    pub open spec fn with_text(self, text: Seq<char>) -> Self {
        NodeView { text, ..self }
    }

    pub open spec fn with_kind(self, kind: NodeKind) -> Self {
        NodeView { kind, ..self }
    }

    pub open spec fn with_children(self, children: Seq<Seq<char>>) -> Self {
        NodeView { children, ..self }
    }
}

// ---------------------------------------------------------------- finding the parent

/// Position `i` is the first one at which `ids` holds `id`.
pub open spec fn first_at(ids: Seq<Seq<char>>, id: Seq<char>, i: int) -> bool {
    &&& 0 <= i < ids.len()
    &&& ids[i] == id
    &&& forall|j: int| 0 <= j < i ==> #[trigger] ids[j] != id
}

/// Key number `i` of the table is the first one whose node lists `child`.
pub open spec fn first_lister(d: Nodes, child: Seq<char>, i: int) -> bool {
    &&& 0 <= i < d.order.len()
    &&& d.map[d.order[i]].children.contains(child)
    &&& forall|j: int|
        0 <= j < i ==> !(#[trigger] d.map[d.order[j]]).children.contains(child)
}

/// The node that lists `child`, and the place of `child` among its children.
pub open spec fn parent_of(d: Nodes, child: Seq<char>) -> Option<(Seq<char>, int)> {
    if exists|i: int| first_lister(d, child, i) {
        let p = d.order[choose|i: int| first_lister(d, child, i)];
        Some((p, choose|i: int| first_at(d.map[p].children, child, i)))
    } else {
        None
    }
}

// ---------------------------------------------------------------- snapshots

/// From `id` down, every listed child is there, and no path is longer than `fuel`.
pub open spec fn whole(m: Map<Seq<char>, NodeView>, id: Seq<char>, fuel: nat) -> bool
    decreases fuel,
{
    &&& fuel > 0
    &&& m.dom().contains(id)
    &&& forall|i: int|
        0 <= i < m[id].children.len() ==> whole(
            m,
            #[trigger] m[id].children[i],
            (fuel - 1) as nat,
        )
}

/// The subtree under `id` is finite and complete.
pub open spec fn grounded(m: Map<Seq<char>, NodeView>, id: Seq<char>) -> bool {
    exists|fuel: nat| whole(m, id, fuel)
}

/// The subtree under `id`, looking no deeper than `fuel`.
pub open spec fn snap(m: Map<Seq<char>, NodeView>, id: Seq<char>, fuel: nat) -> SnapView
    decreases fuel,
{
    SnapView {
        id,
        kind: m[id].kind,
        text: m[id].text,
        children: if fuel == 0 {
            Seq::empty()
        } else {
            Seq::new(
                m[id].children.len(),
                |i: int| snap(m, m[id].children[i], (fuel - 1) as nat),
            )
        },
    }
}

/// The whole subtree under `id`.
pub open spec fn snapshot_of(m: Map<Seq<char>, NodeView>, id: Seq<char>) -> SnapView {
    snap(m, id, choose|fuel: nat| whole(m, id, fuel))
}

/// `id` stands somewhere in the snapshot.
pub open spec fn mentions(s: SnapView, id: Seq<char>) -> bool
    decreases s,
{
    s.id == id || exists|i: int| 0 <= i < s.children.len() && mentions(#[trigger] s.children[i], id)
}

/// All ids of a snapshot.
pub open spec fn ids_of(s: SnapView) -> Set<Seq<char>> {
    Set::new(|id: Seq<char>| mentions(s, id))
}

/// The ids of a snapshot in document order, a node before its children.
pub open spec fn snap_ids(s: SnapView) -> Seq<Seq<char>>
    decreases s, s.children.len() + 1,
{
    seq![s.id] + snap_ids_children(s, s.children.len())
}

/// The ids of the first `n` child subtrees of `s`.
pub open spec fn snap_ids_children(s: SnapView, n: nat) -> Seq<Seq<char>>
    decreases s, n,
{
    if n == 0 || n > s.children.len() {
        Seq::empty()
    } else {
        snap_ids_children(s, (n - 1) as nat) + snap_ids(s.children[n - 1])
    }
}

/// Id number `i` is in use, or stands in the list more than once.
pub open spec fn clashes(d: Nodes, ids: Seq<Seq<char>>, i: int) -> bool {
    d.has(ids[i]) || exists|j: int| 0 <= j < ids.len() && j != i && #[trigger] ids[j] == ids[i]
}

/// Id number `i` is the first one that clashes.
pub open spec fn first_clash(d: Nodes, ids: Seq<Seq<char>>, i: int) -> bool {
    &&& 0 <= i < ids.len()
    &&& clashes(d, ids, i)
    &&& forall|j: int| 0 <= j < i ==> !#[trigger] clashes(d, ids, j)
}

/// The first of the ids that is in use or stands in the list more than once.
pub open spec fn clash(d: Nodes, ids: Seq<Seq<char>>) -> Option<Seq<char>> {
    if exists|i: int| first_clash(d, ids, i) {
        Some(ids[choose|i: int| first_clash(d, ids, i)])
    } else {
        None
    }
}

/// The table entry of the top node of a snapshot.
pub open spec fn top_node(s: SnapView) -> NodeView {
    NodeView { kind: s.kind, text: s.text, children: s.child_ids() }
}

/// Enters every node of a snapshot in the table, a node before its children.
pub open spec fn graft(d: Nodes, s: SnapView) -> Nodes
    decreases s, s.children.len() + 1,
{
    graft_children(d.put(s.id, top_node(s)), s, s.children.len())
}

/// Enters the first `n` child subtrees of `s`.
pub open spec fn graft_children(d: Nodes, s: SnapView, n: nat) -> Nodes
    decreases s, n,
{
    if n == 0 || n > s.children.len() {
        d
    } else {
        graft(graft_children(d, s, (n - 1) as nat), s.children[n - 1])
    }
}

// ---------------------------------------------------------------- ops

/// A text with the characters of `range` replaced.
pub open spec fn splice(text: Seq<char>, range: CharRange, new: Seq<char>) -> Seq<char> {
    text.take(range.start.0 as int) + new + text.skip(range.end.0 as int)
}

/// Why nothing can be put under `parent` at `index`, if so; `taken` is an id that stands in the way.
pub open spec fn placing_error(
    d: Nodes,
    parent: Seq<char>,
    index: usize,
    taken: Option<Seq<char>>,
) -> Option<PatchErrorView> {
    if !d.has(parent) {
        Some(PatchErrorView::UnknownTarget(parent))
    } else if taken is Some {
        Some(PatchErrorView::DuplicateNode(taken->Some_0))
    } else if index > d.map[parent].children.len() {
        Some(
            PatchErrorView::IndexOutOfBounds { parent, index, len: d.map[parent].children.len() },
        )
    } else {
        None
    }
}

/// Makes `id` child number `index` of `parent`.
pub open spec fn attach(d: Nodes, parent: Seq<char>, index: int, id: Seq<char>) -> Nodes {
    let node = d.map[parent];
    d.put(parent, node.with_children(node.children.insert(index, id)))
}

/// Takes child number `index` off the list of `parent`.
pub open spec fn detach(d: Nodes, parent: Seq<char>, index: int) -> Nodes {
    let node = d.map[parent];
    d.put(parent, node.with_children(node.children.remove(index)))
}

/// What an op makes of the node table, and the op that takes it back.
pub open spec fn edit(d: Nodes, target: Seq<char>, op: OpView) -> Result<
    (Nodes, OpView),
    PatchErrorView,
> {
    match op {
        OpView::SetMarkdown { md } => if !d.has(target) {
            Err(PatchErrorView::UnknownTarget(target))
        } else {
            Ok(
                (
                    d.put(target, d.map[target].with_text(md)),
                    OpView::SetMarkdown { md: d.map[target].text },
                ),
            )
        },
        OpView::SetSpan { range, text } => if !d.has(target) {
            Err(PatchErrorView::UnknownTarget(target))
        } else if !range.fits(d.map[target].text.len()) {
            Err(PatchErrorView::RangeOutOfBounds(range))
        } else {
            let old = d.map[target].text;
            Ok(
                (
                    d.put(target, d.map[target].with_text(splice(old, range, text))),
                    OpView::SetSpan {
                        range: CharRange {
                            start: range.start,
                            end: crate::offsets::Pos((range.start.0 + text.len()) as usize),
                        },
                        text: old.subrange(range.start.0 as int, range.end.0 as int),
                    },
                ),
            )
        },
        OpView::SetKind { kind } => if !d.has(target) {
            Err(PatchErrorView::UnknownTarget(target))
        } else {
            Ok(
                (
                    d.put(target, d.map[target].with_kind(kind)),
                    OpView::SetKind { kind: d.map[target].kind },
                ),
            )
        },
        OpView::InsertSection { parent, index, id, text } => match placing_error(
            d,
            parent,
            index,
            if d.has(id) {
                Some(id)
            } else {
                None
            },
        ) {
            Some(e) => Err(e),
            None => Ok(
                (
                    attach(d.put(id, NodeView::leaf(text)), parent, index as int, id),
                    OpView::RemoveNode { id },
                ),
            ),
        },
        OpView::RemoveNode { id } => if !d.has(id) {
            Err(PatchErrorView::UnknownTarget(id))
        } else {
            match parent_of(d, id) {
                None => Err(PatchErrorView::NotRemovable(id)),
                Some((parent, index)) => {
                    let snapshot = snapshot_of(d.map, id);
                    Ok(
                        (
                            detach(d, parent, index).without(ids_of(snapshot)),
                            OpView::CreateNode { parent, index: index as usize, snapshot },
                        ),
                    )
                },
            }
        },
        OpView::CreateNode { parent, index, snapshot } => match placing_error(
            d,
            parent,
            index,
            clash(d, snap_ids(snapshot)),
        ) {
            Some(e) => Err(e),
            None => Ok(
                (
                    attach(graft(d, snapshot), parent, index as int, snapshot.id),
                    OpView::RemoveNode { id: snapshot.id },
                ),
            ),
        },
    }
}

/// The op can be carried out: a subtree to remove is finite and complete.
pub open spec fn edit_ready(d: Nodes, op: OpView) -> bool {
    match op {
        OpView::RemoveNode { id } => d.has(id) && parent_of(d, id) is Some ==> grounded(d.map, id),
        _ => true,
    }
}

impl Doc {
    /// What applying an op gives.
    pub open spec fn applied(self, target: Seq<char>, op: OpView) -> Result<
        (Doc, OpView),
        PatchErrorView,
    > {
        match edit(self.nodes, target, op) {
            Ok((nodes, inverse)) => Ok((Doc { nodes, rev: (self.rev + 1) as u64, ..self }, inverse)),
            Err(e) => Err(e),
        }
    }

    /// The op can be carried out, and there is a number for the next revision.
    pub open spec fn op_ready(self, target: Seq<char>, op: OpView) -> bool {
        &&& edit_ready(self.nodes, op)
        &&& edit(self.nodes, target, op) is Ok ==> self.rev < u64::MAX
    }
}

// ---------------------------------------------------------------- walking

/// From `id` down, no path through existing nodes is longer than `fuel`.
pub open spec fn bounded(m: Map<Seq<char>, NodeView>, id: Seq<char>, fuel: nat) -> bool
    decreases fuel,
{
    &&& fuel > 0
    &&& m.dom().contains(id) ==> forall|i: int|
        0 <= i < m[id].children.len() ==> bounded(
            m,
            #[trigger] m[id].children[i],
            (fuel - 1) as nat,
        )
}

/// A walk from `id` down comes to an end.
pub open spec fn walkable(m: Map<Seq<char>, NodeView>, id: Seq<char>) -> bool {
    exists|fuel: nat| bounded(m, id, fuel)
}

/// The existing nodes from `id` down, a node before its children, no deeper than `fuel`.
pub open spec fn walk(m: Map<Seq<char>, NodeView>, id: Seq<char>, fuel: nat) -> Seq<Seq<char>>
    decreases fuel, 0nat,
{
    if fuel == 0 || !m.dom().contains(id) {
        Seq::empty()
    } else {
        seq![id] + walk_children(m, m[id].children, m[id].children.len(), (fuel - 1) as nat)
    }
}

/// The walks of the first `n` of `kids`, one after the other.
pub open spec fn walk_children(
    m: Map<Seq<char>, NodeView>,
    kids: Seq<Seq<char>>,
    n: nat,
    fuel: nat,
) -> Seq<Seq<char>>
    decreases fuel, n,
{
    if n == 0 {
        Seq::empty()
    } else {
        walk_children(m, kids, (n - 1) as nat, fuel) + walk(m, kids[n - 1], fuel)
    }
}

/// The existing nodes from `id` down in document order.
pub open spec fn preorder(m: Map<Seq<char>, NodeView>, id: Seq<char>) -> Seq<Seq<char>> {
    walk(m, id, choose|fuel: nat| bounded(m, id, fuel))
}

/// More fuel than needed changes nothing.
pub proof fn lemma_walk_fuel(m: Map<Seq<char>, NodeView>, id: Seq<char>, f: nat, g: nat)
    requires
        bounded(m, id, f),
        f <= g,
    ensures
        bounded(m, id, g),
        walk(m, id, g) == walk(m, id, f),
    decreases f,
{
    if m.dom().contains(id) {
        let kids = m[id].children;
        assert forall|i: int| 0 <= i < kids.len() implies bounded(
            m,
            #[trigger] kids[i],
            (g - 1) as nat,
        ) && walk(m, kids[i], (g - 1) as nat) == walk(m, kids[i], (f - 1) as nat) by {
            lemma_walk_fuel(m, kids[i], (f - 1) as nat, (g - 1) as nat);
        }
        lemma_walk_children_fuel(m, kids, kids.len(), (f - 1) as nat, (g - 1) as nat);
    }
}

proof fn lemma_walk_children_fuel(
    m: Map<Seq<char>, NodeView>,
    kids: Seq<Seq<char>>,
    n: nat,
    f: nat,
    g: nat,
)
    requires
        n <= kids.len(),
        forall|i: int| 0 <= i < kids.len() ==> walk(m, #[trigger] kids[i], g) == walk(m, kids[i], f),
    ensures
        walk_children(m, kids, n, g) == walk_children(m, kids, n, f),
    decreases n,
{
    if n > 0 {
        lemma_walk_children_fuel(m, kids, (n - 1) as nat, f, g);
        assert(walk(m, kids[n - 1], g) == walk(m, kids[n - 1], f));
    }
}

/// Any fuel that suffices gives the document order.
pub proof fn lemma_preorder(m: Map<Seq<char>, NodeView>, id: Seq<char>, fuel: nat)
    requires
        bounded(m, id, fuel),
    ensures
        preorder(m, id) == walk(m, id, fuel),
{
    let c = choose|c: nat| bounded(m, id, c);
    assert(bounded(m, id, c));
    if c <= fuel {
        lemma_walk_fuel(m, id, c, fuel);
    } else {
        lemma_walk_fuel(m, id, fuel, c);
    }
}

// ---------------------------------------------------------------- table of contents

/// The texts of the headings among `ids`.
pub open spec fn titles(m: Map<Seq<char>, NodeView>, ids: Seq<Seq<char>>) -> Seq<Seq<char>> {
    ids.filter(|id: Seq<char>| m[id].kind is Heading).map_values(|id: Seq<char>| m[id].text)
}

/// The table of contents: one line `- title` for each heading, in document order.
pub open spec fn toc_text(m: Map<Seq<char>, NodeView>, root: Seq<char>) -> Seq<char> {
    crate::text::joined(
        titles(m, preorder(m, root)).map_values(|t: Seq<char>| "- "@ + t),
        "\n"@,
    )
}

impl Doc {
    /// The ids of those patches whose target is a heading now.
    pub open spec fn heading_patches(self, authored: Seq<PatchView>) -> Seq<Seq<char>> {
        authored.filter(
            |p: PatchView| self.nodes.has(p.target) && self.nodes.map[p.target].kind is Heading,
        ).map_values(|p: PatchView| p.id)
    }

    /// A table of contents is registered and there, and a patch touched a heading.
    pub open spec fn toc_due(self, authored: Seq<PatchView>) -> bool {
        &&& self.toc matches Some(t)
        &&& self.nodes.has(t)
        &&& self.heading_patches(authored).len() > 0
    }

    /// The patches that follow from the authored ones: an update of the table of contents that
    /// depends on every patch of a heading.
    pub open spec fn derived_patches(self, authored: Seq<PatchView>) -> Seq<PatchView> {
        if self.toc_due(authored) {
            let deps = self.heading_patches(authored);
            seq![
                PatchView {
                    id: "derive:toc"@,
                    source: SourceView::Derived { from: deps[0] },
                    target: self.toc->Some_0,
                    op: OpView::SetMarkdown { md: toc_text(self.nodes.map, self.root) },
                    depends_on: deps,
                },
            ]
        } else {
            Seq::empty()
        }
    }
}

} // verus!
