//! What holds of every document that is a tree: ops keep it one, and each op's inverse takes the
//! document back to the content it had.
use crate::doc;
use crate::doc::{Doc, NodeView, Nodes};
use crate::ops::{OpView, SnapView};
use crate::textmap;
use vstd::prelude::*;

verus! {

// ---------------------------------------------------------------- trees

/// Node `p` is there and lists `child` at place `i`.
pub open spec fn lists(m: Map<Seq<char>, NodeView>, p: Seq<char>, i: int, child: Seq<char>) -> bool {
    m.dom().contains(p) && 0 <= i < m[p].children.len() && m[p].children[i] == child
}

/// No node is listed at two places.
pub open spec fn listed_once(m: Map<Seq<char>, NodeView>) -> bool {
    forall|p: Seq<char>, i: int, q: Seq<char>, j: int, child: Seq<char>|
        #[trigger] lists(m, p, i, child) && #[trigger] lists(m, q, j, child) ==> p == q && i == j
}

/// Every subtree is finite and complete.
pub open spec fn all_grounded(m: Map<Seq<char>, NodeView>) -> bool {
    forall|id: Seq<char>| m.dom().contains(id) ==> #[trigger] doc::grounded(m, id)
}

/// From `k` it takes `n` steps, each from a node to the one that lists it, to get to the root.
pub open spec fn hangs(m: Map<Seq<char>, NodeView>, root: Seq<char>, k: Seq<char>, n: nat) -> bool
    decreases n,
{
    if n == 0 {
        k == root
    } else {
        exists|p: Seq<char>, i: int| #[trigger]
            lists(m, p, i, k) && hangs(m, root, p, (n - 1) as nat)
    }
}

/// The root leads down to `k`.
pub open spec fn reachable(m: Map<Seq<char>, NodeView>, root: Seq<char>, k: Seq<char>) -> bool {
    exists|n: nat| hangs(m, root, k, n)
}

/// The table is one tree: subtrees are finite and complete, no node is listed twice, no node lists
/// the root, and the root leads down to every node. That a walk from the root comes to an end
/// follows from the rest; it is spelled out for those who walk.
pub open spec fn is_tree(m: Map<Seq<char>, NodeView>, root: Seq<char>) -> bool {
    &&& m.dom().contains(root)
    &&& all_grounded(m)
    &&& listed_once(m)
    &&& forall|p: Seq<char>, i: int| !#[trigger] lists(m, p, i, root)
    &&& forall|k: Seq<char>| m.dom().contains(k) ==> #[trigger] reachable(m, root, k)
    &&& doc::walkable(m, root)
}

/// A complete subtree can be walked.
pub proof fn lemma_whole_bounded(m: Map<Seq<char>, NodeView>, id: Seq<char>, f: nat)
    requires
        doc::whole(m, id, f),
    ensures
        doc::bounded(m, id, f),
    decreases f,
{
    assert forall|i: int| 0 <= i < m[id].children.len() implies doc::bounded(
        m,
        #[trigger] m[id].children[i],
        (f - 1) as nat,
    ) by {
        assert(doc::whole(m, m[id].children[i], (f - 1) as nat));
        lemma_whole_bounded(m, m[id].children[i], (f - 1) as nat);
    }
}

/// Where every subtree is complete, a walk comes to an end.
pub proof fn lemma_walkable(m: Map<Seq<char>, NodeView>, id: Seq<char>)
    requires
        m.dom().contains(id),
        all_grounded(m),
    ensures
        doc::walkable(m, id),
{
    assert(doc::grounded(m, id));
    let f = choose|f: nat| doc::whole(m, id, f);
    lemma_whole_bounded(m, id, f);
}

/// Texts and lists of children have lengths that a machine can count.
pub open spec fn countable(m: Map<Seq<char>, NodeView>) -> bool {
    forall|id: Seq<char>|
        #[trigger] m.dom().contains(id) ==> m[id].text.len() <= usize::MAX && m[id].children.len()
            <= usize::MAX
}

impl Doc {
    /// The document is a tree, and its table is in order.
    pub open spec fn sound(self) -> bool {
        &&& is_tree(self.nodes.map, self.root)
        &&& self.nodes.tidy()
        &&& countable(self.nodes.map)
    }

    /// Both documents show the same: nodes, root and table of contents. Revision numbers and the
    /// order of storage may differ.
    pub open spec fn same_content(self, other: Doc) -> bool {
        &&& self.nodes.map == other.nodes.map
        &&& self.root == other.root
        &&& self.toc == other.toc
    }
}

/// No id stands twice in the snapshot.
pub open spec fn distinct(s: SnapView) -> bool
    decreases s,
{
    &&& forall|i: int| 0 <= i < s.children.len() ==> !doc::mentions(#[trigger] s.children[i], s.id)
    &&& forall|i: int, j: int, id: Seq<char>|
        0 <= i < j < s.children.len() && #[trigger] doc::mentions(s.children[i], id)
            ==> !#[trigger] doc::mentions(s.children[j], id)
    &&& forall|i: int| 0 <= i < s.children.len() ==> distinct(#[trigger] s.children[i])
}

// ---------------------------------------------------------------- fuel

/// More fuel than needed changes nothing.
pub proof fn lemma_snap_fuel(m: Map<Seq<char>, NodeView>, id: Seq<char>, f: nat, g: nat)
    requires
        doc::whole(m, id, f),
        f <= g,
    ensures
        doc::whole(m, id, g),
        doc::snap(m, id, g) == doc::snap(m, id, f),
    decreases f,
{
    let kids = m[id].children;
    assert forall|i: int| 0 <= i < kids.len() implies doc::whole(
        m,
        #[trigger] kids[i],
        (g - 1) as nat,
    ) && doc::snap(m, kids[i], (g - 1) as nat) == doc::snap(m, kids[i], (f - 1) as nat) by {
        lemma_snap_fuel(m, kids[i], (f - 1) as nat, (g - 1) as nat);
    }
    assert(doc::snap(m, id, g).children =~= doc::snap(m, id, f).children);
}

/// A snapshot has the id of its top node.
proof fn lemma_snap_top(m: Map<Seq<char>, NodeView>, id: Seq<char>, f: nat)
    ensures
        doc::snap(m, id, f).id == id,
{
}

/// Any fuel that suffices gives the subtree.
pub proof fn lemma_snapshot(m: Map<Seq<char>, NodeView>, id: Seq<char>, f: nat)
    requires
        doc::whole(m, id, f),
    ensures
        doc::snapshot_of(m, id) == doc::snap(m, id, f),
{
    let c = choose|c: nat| doc::whole(m, id, c);
    assert(doc::whole(m, id, c));
    if c <= f {
        lemma_snap_fuel(m, id, c, f);
    } else {
        lemma_snap_fuel(m, id, f, c);
    }
}

/// What a snapshot mentions is there, and complete below.
pub proof fn lemma_mentioned(m: Map<Seq<char>, NodeView>, id: Seq<char>, f: nat, k: Seq<char>)
    requires
        doc::whole(m, id, f),
        doc::mentions(doc::snap(m, id, f), k),
    ensures
        m.dom().contains(k),
        doc::whole(m, k, f),
    decreases f,
{
    let s = doc::snap(m, id, f);
    if k != id {
        let i = choose|i: int|
            0 <= i < s.children.len() && doc::mentions(#[trigger] s.children[i], k);
        assert(s.children[i] == doc::snap(m, m[id].children[i], (f - 1) as nat));
        lemma_mentioned(m, m[id].children[i], (f - 1) as nat, k);
        lemma_snap_fuel(m, k, (f - 1) as nat, f);
    }
}

/// A snapshot mentions the children of what it mentions.
proof fn lemma_mentions_children(
    m: Map<Seq<char>, NodeView>,
    id: Seq<char>,
    f: nat,
    k: Seq<char>,
    i: int,
)
    requires
        doc::whole(m, id, f),
        doc::mentions(doc::snap(m, id, f), k),
        lists(m, k, i, m[k].children[i]),
    ensures
        doc::mentions(doc::snap(m, id, f), m[k].children[i]),
    decreases f,
{
    let s = doc::snap(m, id, f);
    let c = m[k].children[i];
    if k == id {
        assert(doc::whole(m, m[id].children[i], (f - 1) as nat));
        assert(s.children[i] == doc::snap(m, c, (f - 1) as nat));
        lemma_snap_top(m, c, (f - 1) as nat);
        assert(doc::mentions(s.children[i], c));
    } else {
        let j = choose|j: int|
            0 <= j < s.children.len() && doc::mentions(#[trigger] s.children[j], k);
        assert(s.children[j] == doc::snap(m, m[id].children[j], (f - 1) as nat));
        lemma_mentions_children(m, m[id].children[j], (f - 1) as nat, k, i);
        assert(doc::mentions(s.children[j], c));
    }
}

/// Whatever a snapshot mentions below its top is listed by something that it mentions.
proof fn lemma_mentioned_by(m: Map<Seq<char>, NodeView>, id: Seq<char>, f: nat, k: Seq<char>) -> (r: (
    Seq<char>,
    int,
))
    requires
        doc::whole(m, id, f),
        doc::mentions(doc::snap(m, id, f), k),
        k != id,
    ensures
        lists(m, r.0, r.1, k),
        doc::mentions(doc::snap(m, id, f), r.0),
    decreases f,
{
    let s = doc::snap(m, id, f);
    let j = choose|j: int| 0 <= j < s.children.len() && doc::mentions(#[trigger] s.children[j], k);
    assert(s.children[j] == doc::snap(m, m[id].children[j], (f - 1) as nat));
    let c = m[id].children[j];
    if k == c {
        (id, j)
    } else {
        let r = lemma_mentioned_by(m, c, (f - 1) as nat, k);
        assert(doc::mentions(s.children[j], r.0));
        r
    }
}

/// No node stands below a node that it lists.
proof fn lemma_no_cycle(m: Map<Seq<char>, NodeView>, id: Seq<char>, f: nat, p: Seq<char>, i: int)
    requires
        doc::whole(m, id, f),
        lists(m, p, i, id),
    ensures
        !doc::mentions(doc::snap(m, id, f), p),
    decreases f,
{
    if doc::mentions(doc::snap(m, id, f), p) {
        lemma_mentioned(m, id, f, p);
        assert(doc::whole(m, m[p].children[i], (f - 1) as nat));
        lemma_snap_fuel(m, id, (f - 1) as nat, f);
        lemma_no_cycle(m, id, (f - 1) as nat, p, i);
    }
}

/// A subtree depends on nothing but the nodes that it mentions.
proof fn lemma_snap_local(
    m: Map<Seq<char>, NodeView>,
    n: Map<Seq<char>, NodeView>,
    id: Seq<char>,
    f: nat,
)
    requires
        doc::whole(m, id, f),
        forall|k: Seq<char>| #[trigger]
            doc::mentions(doc::snap(m, id, f), k) ==> n.dom().contains(k) && n[k] == m[k],
    ensures
        doc::whole(n, id, f),
        doc::snap(n, id, f) == doc::snap(m, id, f),
    decreases f,
{
    let s = doc::snap(m, id, f);
    assert(doc::mentions(s, id));
    let kids = m[id].children;
    assert forall|i: int| 0 <= i < kids.len() implies doc::whole(
        n,
        #[trigger] kids[i],
        (f - 1) as nat,
    ) && doc::snap(n, kids[i], (f - 1) as nat) == doc::snap(m, kids[i], (f - 1) as nat) by {
        assert(s.children[i] == doc::snap(m, kids[i], (f - 1) as nat));
        assert forall|k: Seq<char>| #[trigger]
            doc::mentions(doc::snap(m, kids[i], (f - 1) as nat), k) implies n.dom().contains(k)
            && n[k] == m[k] by {
            assert(doc::mentions(s.children[i], k));
            assert(doc::mentions(s, k));
        }
        lemma_snap_local(m, n, kids[i], (f - 1) as nat);
    }
    assert(doc::snap(n, id, f).children =~= s.children);
}

// ---------------------------------------------------------------- grafting

/// Grafting enters what the snapshot mentions and leaves everything else alone.
pub proof fn lemma_graft_frame(d: Nodes, s: SnapView, k: Seq<char>)
    ensures
        doc::graft(d, s).has(k) <==> d.has(k) || doc::mentions(s, k),
        !doc::mentions(s, k) ==> doc::graft(d, s).map[k] == d.map[k],
    decreases s, s.children.len() + 1,
{
    lemma_graft_children_frame(d.put(s.id, doc::top_node(s)), s, s.children.len(), k);
}

proof fn lemma_graft_children_frame(d: Nodes, s: SnapView, n: nat, k: Seq<char>)
    requires
        n <= s.children.len(),
    ensures
        doc::graft_children(d, s, n).has(k) <==> d.has(k) || exists|i: int|
            0 <= i < n && doc::mentions(#[trigger] s.children[i], k),
        (forall|i: int| 0 <= i < n ==> !doc::mentions(#[trigger] s.children[i], k))
            ==> doc::graft_children(d, s, n).map[k] == d.map[k],
    decreases s, n,
{
    if n > 0 {
        lemma_graft_children_frame(d, s, (n - 1) as nat, k);
        lemma_graft_frame(doc::graft_children(d, s, (n - 1) as nat), s.children[n - 1], k);
        let before = exists|i: int|
            0 <= i < n - 1 && doc::mentions(#[trigger] s.children[i], k);
        let after = exists|i: int| 0 <= i < n && doc::mentions(#[trigger] s.children[i], k);
        assert(after <==> before || doc::mentions(s.children[n - 1], k)) by {
            if before {
                let i = choose|i: int|
                    0 <= i < n - 1 && doc::mentions(#[trigger] s.children[i], k);
                assert(0 <= i < n && doc::mentions(s.children[i], k));
            }
        }
    }
}

/// Later children leave alone what they do not mention.
proof fn lemma_graft_children_tail(d: Nodes, s: SnapView, a: nat, n: nat, k: Seq<char>)
    requires
        a <= n <= s.children.len(),
        forall|i: int| a <= i < n ==> !doc::mentions(#[trigger] s.children[i], k),
    ensures
        doc::graft_children(d, s, n).map[k] == doc::graft_children(d, s, a).map[k],
        doc::graft_children(d, s, n).has(k) == doc::graft_children(d, s, a).has(k),
    decreases n,
{
    if n > a {
        lemma_graft_children_tail(d, s, a, (n - 1) as nat, k);
        lemma_graft_frame(doc::graft_children(d, s, (n - 1) as nat), s.children[n - 1], k);
    }
}

/// The length of the longest path down a snapshot.
pub open spec fn depth(s: SnapView) -> nat
    decreases s, s.children.len() + 1,
{
    1 + deepest(s, s.children.len())
}

/// The greatest depth among the first `n` children.
pub open spec fn deepest(s: SnapView, n: nat) -> nat
    decreases s, n,
{
    if n == 0 || n > s.children.len() {
        0
    } else {
        let rest = deepest(s, (n - 1) as nat);
        let last = depth(s.children[n - 1]);
        if rest < last {
            last
        } else {
            rest
        }
    }
}

proof fn lemma_deepest(s: SnapView, n: nat, i: int)
    requires
        0 <= i < n <= s.children.len(),
    ensures
        depth(s.children[i]) <= deepest(s, n),
    decreases n,
{
    if i < n - 1 {
        lemma_deepest(s, (n - 1) as nat, i);
    }
}

/// A grafted subtree with distinct ids reads back as the snapshot.
proof fn lemma_graft_reads_back(d: Nodes, s: SnapView, f: nat)
    requires
        distinct(s),
        f >= depth(s),
    ensures
        doc::whole(doc::graft(d, s).map, s.id, f),
        doc::snap(doc::graft(d, s).map, s.id, f) == s,
    decreases s,
{
    let d0 = d.put(s.id, doc::top_node(s));
    let len = s.children.len();
    let g = doc::graft(d, s);
    assert(g == doc::graft_children(d0, s, len));
    lemma_graft_children_frame(d0, s, len, s.id);
    assert(g.map[s.id] == doc::top_node(s));
    assert(g.has(s.id));
    assert forall|i: int| 0 <= i < len implies doc::whole(
        g.map,
        #[trigger] s.child_ids()[i],
        (f - 1) as nat,
    ) && doc::snap(g.map, s.child_ids()[i], (f - 1) as nat) == s.children[i] by {
        let c = s.children[i];
        let gi = doc::graft_children(d0, s, i as nat);
        let gn = doc::graft_children(d0, s, (i + 1) as nat);
        assert(gn == doc::graft(gi, c));
        lemma_deepest(s, len, i);
        lemma_graft_reads_back(gi, c, (f - 1) as nat);
        assert forall|k: Seq<char>| #[trigger]
            doc::mentions(doc::snap(gn.map, c.id, (f - 1) as nat), k) implies g.has(k) && g.map[k]
            == gn.map[k] by {
            assert(doc::mentions(c, k));
            assert forall|j: int| i + 1 <= j < len implies !doc::mentions(
                #[trigger] s.children[j],
                k,
            ) by {
                assert(doc::mentions(s.children[i], k));
            }
            lemma_graft_children_tail(d0, s, (i + 1) as nat, len, k);
            lemma_graft_frame(gi, c, k);
        }
        lemma_snap_local(gn.map, g.map, c.id, (f - 1) as nat);
    }
    assert(doc::snap(g.map, s.id, f).children =~= s.children) by {
        assert forall|i: int| 0 <= i < len implies #[trigger] doc::snap(
            g.map,
            s.id,
            f,
        ).children[i] == s.children[i] by {
            assert(doc::snap(g.map, s.child_ids()[i], (f - 1) as nat) == s.children[i]);
        }
    }
    assert forall|i: int| 0 <= i < g.map[s.id].children.len() implies doc::whole(
        g.map,
        #[trigger] g.map[s.id].children[i],
        (f - 1) as nat,
    ) by {
        assert(g.map[s.id].children[i] == s.child_ids()[i]);
    }
}

/// Grafting a subtree that was read from `m` enters the nodes of `m`.
proof fn lemma_graft_of_snap(
    d: Nodes,
    m: Map<Seq<char>, NodeView>,
    id: Seq<char>,
    f: nat,
    k: Seq<char>,
)
    requires
        doc::whole(m, id, f),
        doc::mentions(doc::snap(m, id, f), k),
    ensures
        doc::graft(d, doc::snap(m, id, f)).map[k] == m[k],
    decreases f, m[id].children.len() + 1,
{
    let s = doc::snap(m, id, f);
    assert(doc::top_node(s) =~= m[id]) by {
        assert forall|i: int| 0 <= i < m[id].children.len() implies #[trigger] s.child_ids()[i]
            == m[id].children[i] by {
            lemma_snap_top(m, m[id].children[i], (f - 1) as nat);
        }
        assert(s.child_ids() =~= m[id].children);
    }
    let d0 = d.put(id, doc::top_node(s));
    lemma_graft_of_snap_children(d0, m, id, f, s.children.len(), k);
}

proof fn lemma_graft_of_snap_children(
    d: Nodes,
    m: Map<Seq<char>, NodeView>,
    id: Seq<char>,
    f: nat,
    n: nat,
    k: Seq<char>,
)
    requires
        doc::whole(m, id, f),
        n <= m[id].children.len(),
        d.map[k] == m[k] || exists|i: int|
            0 <= i < n && doc::mentions(#[trigger] doc::snap(m, id, f).children[i], k),
    ensures
        doc::graft_children(d, doc::snap(m, id, f), n).map[k] == m[k],
    decreases f, n,
{
    let s = doc::snap(m, id, f);
    if n > 0 {
        let c = s.children[n - 1];
        let g = doc::graft_children(d, s, (n - 1) as nat);
        assert(c == doc::snap(m, m[id].children[n - 1], (f - 1) as nat));
        if doc::mentions(c, k) {
            lemma_graft_of_snap(g, m, m[id].children[n - 1], (f - 1) as nat, k);
        } else {
            lemma_graft_frame(g, c, k);
            if d.map[k] != m[k] {
                let i = choose|i: int| 0 <= i < n && doc::mentions(#[trigger] s.children[i], k);
                assert(i < n - 1);
            }
            lemma_graft_of_snap_children(d, m, id, f, (n - 1) as nat, k);
        }
    }
}

/// Grafting keeps the table in order.
proof fn lemma_graft_tidy(d: Nodes, s: SnapView)
    requires
        d.tidy(),
    ensures
        doc::graft(d, s).tidy(),
    decreases s, s.children.len() + 1,
{
    textmap::lemma_tidy(d, s.id, doc::top_node(s), Set::empty());
    lemma_graft_children_tidy(d.put(s.id, doc::top_node(s)), s, s.children.len());
}

proof fn lemma_graft_children_tidy(d: Nodes, s: SnapView, n: nat)
    requires
        d.tidy(),
    ensures
        doc::graft_children(d, s, n).tidy(),
    decreases s, n,
{
    if 0 < n <= s.children.len() {
        lemma_graft_children_tidy(d, s, (n - 1) as nat);
        lemma_graft_tidy(doc::graft_children(d, s, (n - 1) as nat), s.children[n - 1]);
    }
}

// ---------------------------------------------------------------- parents

proof fn lemma_some_first_lister(d: Nodes, child: Seq<char>, n: int)
    requires
        0 <= n <= d.order.len(),
        exists|i: int| 0 <= i < n && (#[trigger] d.map[d.order[i]]).children.contains(child),
    ensures
        exists|i: int| doc::first_lister(d, child, i),
    decreases n,
{
    if exists|i: int| 0 <= i < n - 1 && (#[trigger] d.map[d.order[i]]).children.contains(child) {
        lemma_some_first_lister(d, child, n - 1);
    } else {
        assert(doc::first_lister(d, child, n - 1));
    }
}

proof fn lemma_some_first_at(ids: Seq<Seq<char>>, id: Seq<char>, n: int)
    requires
        0 <= n <= ids.len(),
        exists|i: int| 0 <= i < n && #[trigger] ids[i] == id,
    ensures
        exists|i: int| doc::first_at(ids, id, i),
    decreases n,
{
    if exists|i: int| 0 <= i < n - 1 && #[trigger] ids[i] == id {
        lemma_some_first_at(ids, id, n - 1);
    } else {
        assert(doc::first_at(ids, id, n - 1));
    }
}

/// The parent that is found lists the child at the place that is found.
pub proof fn lemma_parent_lists(d: Nodes, child: Seq<char>)
    requires
        d.tidy(),
        doc::parent_of(d, child) is Some,
    ensures
        ({
            let (p, i) = doc::parent_of(d, child)->Some_0;
            lists(d.map, p, i, child)
        }),
{
    let k = choose|k: int| doc::first_lister(d, child, k);
    assert(doc::first_lister(d, child, k));
    let p = d.order[k];
    assert(d.order.contains(p));
    let ids = d.map[p].children;
    let j = choose|j: int| 0 <= j < ids.len() && ids[j] == child;
    assert(ids[j] == child);
    lemma_some_first_at(ids, child, ids.len() as int);
    let i = choose|i: int| doc::first_at(ids, child, i);
    assert(doc::first_at(ids, child, i));
}

/// In a tree the parent that is found is the only one.
pub proof fn lemma_parent_unique(d: Nodes, p: Seq<char>, i: int, child: Seq<char>)
    requires
        d.tidy(),
        listed_once(d.map),
        lists(d.map, p, i, child),
    ensures
        doc::parent_of(d, child) == Some((p, i)),
{
    assert(d.order.contains(p));
    let k = choose|k: int| 0 <= k < d.order.len() && d.order[k] == p;
    assert(d.map[d.order[k]].children[i] == child);
    assert(d.map[d.order[k]].children.contains(child));
    lemma_some_first_lister(d, child, d.order.len() as int);
    lemma_parent_lists(d, child);
    let (q, j) = doc::parent_of(d, child)->Some_0;
    assert(lists(d.map, q, j, child));
}

// ---------------------------------------------------------------- ops that keep the shape

/// Both tables have the same nodes with the same children.
pub open spec fn same_shape(m: Map<Seq<char>, NodeView>, n: Map<Seq<char>, NodeView>) -> bool {
    &&& m.dom() == n.dom()
    &&& forall|id: Seq<char>| #[trigger] m.dom().contains(id) ==> m[id].children == n[id].children
}

proof fn lemma_whole_by_shape(
    m: Map<Seq<char>, NodeView>,
    n: Map<Seq<char>, NodeView>,
    id: Seq<char>,
    f: nat,
)
    requires
        same_shape(m, n),
        doc::whole(m, id, f),
    ensures
        doc::whole(n, id, f),
    decreases f,
{
    assert(m.dom().contains(id));
    assert forall|i: int| 0 <= i < n[id].children.len() implies doc::whole(
        n,
        #[trigger] n[id].children[i],
        (f - 1) as nat,
    ) by {
        assert(doc::whole(m, m[id].children[i], (f - 1) as nat));
        lemma_whole_by_shape(m, n, m[id].children[i], (f - 1) as nat);
    }
}

proof fn lemma_hangs_by_shape(
    m: Map<Seq<char>, NodeView>,
    n: Map<Seq<char>, NodeView>,
    root: Seq<char>,
    k: Seq<char>,
    f: nat,
)
    requires
        same_shape(m, n),
        hangs(m, root, k, f),
    ensures
        hangs(n, root, k, f),
    decreases f,
{
    if f > 0 {
        let (p, i) = choose|p: Seq<char>, i: int| #[trigger]
            lists(m, p, i, k) && hangs(m, root, p, (f - 1) as nat);
        lemma_hangs_by_shape(m, n, root, p, (f - 1) as nat);
        assert(lists(n, p, i, k));
    }
}

pub proof fn lemma_tree_by_shape(
    m: Map<Seq<char>, NodeView>,
    n: Map<Seq<char>, NodeView>,
    root: Seq<char>,
)
    requires
        same_shape(m, n),
        is_tree(m, root),
    ensures
        is_tree(n, root),
{
    assert forall|id: Seq<char>| n.dom().contains(id) implies #[trigger] doc::grounded(n, id) by {
        assert(doc::grounded(m, id));
        let f = choose|f: nat| doc::whole(m, id, f);
        lemma_whole_by_shape(m, n, id, f);
    }
    assert forall|p: Seq<char>, i: int, q: Seq<char>, j: int, child: Seq<char>|
        #[trigger] lists(n, p, i, child) && #[trigger] lists(n, q, j, child) implies p == q && i
        == j by {
        assert(lists(m, p, i, child) && lists(m, q, j, child));
    }
    assert forall|p: Seq<char>, i: int| !#[trigger] lists(n, p, i, root) by {
        assert(!lists(m, p, i, root));
    }
    assert forall|k: Seq<char>| n.dom().contains(k) implies #[trigger] reachable(n, root, k) by {
        assert(reachable(m, root, k));
        let f = choose|f: nat| hangs(m, root, k, f);
        lemma_hangs_by_shape(m, n, root, k, f);
    }
    lemma_walkable(n, root);
}

// ---------------------------------------------------------------- ops that add a subtree

/// With distinct ids, nothing in a subtree is listed at two places.
proof fn lemma_distinct_lists(
    m: Map<Seq<char>, NodeView>,
    id: Seq<char>,
    f: nat,
    p: Seq<char>,
    i: int,
    q: Seq<char>,
    j: int,
    c: Seq<char>,
)
    requires
        doc::whole(m, id, f),
        distinct(doc::snap(m, id, f)),
        doc::mentions(doc::snap(m, id, f), p),
        doc::mentions(doc::snap(m, id, f), q),
        lists(m, p, i, c),
        lists(m, q, j, c),
    ensures
        p == q && i == j,
    decreases f,
{
    let s = doc::snap(m, id, f);
    let kids = m[id].children;
    let g = (f - 1) as nat;
    assert forall|a: int| 0 <= a < kids.len() implies #[trigger] s.children[a] == doc::snap(
        m,
        kids[a],
        g,
    ) && doc::whole(m, kids[a], g) by {}
    // The child subtrees in which the two listings put `c`.
    let a = lemma_listed_in(m, id, f, p, i, c);
    let b = lemma_listed_in(m, id, f, q, j, c);
    assert(doc::mentions(s.children[a], c) && doc::mentions(s.children[b], c));
    assert(a == b);
    if p == id && q == id {
        let x = lemma_listed_in(m, id, f, id, i, c);
        lemma_snap_top(m, kids[i], g);
        lemma_snap_top(m, kids[j], g);
        assert(doc::mentions(s.children[i], c) && doc::mentions(s.children[j], c));
    } else if p == id {
        lemma_snap_top(m, kids[i], g);
        assert(doc::mentions(s.children[i], c));
        assert(i == b);
        lemma_no_cycle(m, kids[i], g, q, j);
    } else if q == id {
        lemma_snap_top(m, kids[j], g);
        assert(doc::mentions(s.children[j], c));
        assert(j == a);
        lemma_no_cycle(m, kids[j], g, p, i);
    } else {
        lemma_distinct_lists(m, kids[a], g, p, i, q, j, c);
    }
}

/// The child subtree in which a listed node stands; the lister stands there too, unless it is
/// the top.
proof fn lemma_listed_in(
    m: Map<Seq<char>, NodeView>,
    id: Seq<char>,
    f: nat,
    p: Seq<char>,
    i: int,
    c: Seq<char>,
) -> (a: int)
    requires
        doc::whole(m, id, f),
        doc::mentions(doc::snap(m, id, f), p),
        lists(m, p, i, c),
    ensures
        0 <= a < m[id].children.len(),
        doc::mentions(doc::snap(m, id, f).children[a], c),
        p == id ==> a == i,
        p != id ==> doc::mentions(doc::snap(m, id, f).children[a], p),
{
    let s = doc::snap(m, id, f);
    let g = (f - 1) as nat;
    if p == id {
        assert(doc::whole(m, m[id].children[i], g));
        assert(s.children[i] == doc::snap(m, m[id].children[i], g));
        lemma_snap_top(m, c, g);
        i
    } else {
        let a = choose|a: int|
            0 <= a < s.children.len() && doc::mentions(#[trigger] s.children[a], p);
        assert(s.children[a] == doc::snap(m, m[id].children[a], g));
        assert(doc::whole(m, m[id].children[a], g));
        lemma_mentions_children(m, m[id].children[a], g, p, i);
        a
    }
}

/// The table after a subtree was put under `parent`.
pub open spec fn planted(d: Nodes, parent: Seq<char>, index: int, s: SnapView) -> Nodes {
    doc::attach(doc::graft(d, s), parent, index, s.id)
}

/// What planting a subtree whose ids are distinct and free does to each node.
pub proof fn lemma_planted(d: Nodes, parent: Seq<char>, index: usize, s: SnapView, k: Seq<char>)
    requires
        d.has(parent),
        index <= d.map[parent].children.len(),
        distinct(s),
        forall|id: Seq<char>| #[trigger] doc::mentions(s, id) ==> !d.has(id),
    ensures
        ({
            let n = planted(d, parent, index as int, s);
            &&& n.has(k) <==> d.has(k) || doc::mentions(s, k)
            &&& doc::mentions(s, k) ==> n.map[k] == doc::graft(d, s).map[k]
            &&& d.has(k) && k != parent ==> n.map[k] == d.map[k]
            &&& k == parent ==> n.map[k] == d.map[parent].with_children(
                d.map[parent].children.insert(index as int, s.id),
            )
        }),
{
    lemma_graft_frame(d, s, k);
    lemma_graft_frame(d, s, parent);
}

/// A planted subtree reads back as the snapshot.
pub proof fn lemma_planted_reads_back(d: Nodes, parent: Seq<char>, index: usize, s: SnapView)
    requires
        d.has(parent),
        index <= d.map[parent].children.len(),
        distinct(s),
        forall|id: Seq<char>| #[trigger] doc::mentions(s, id) ==> !d.has(id),
    ensures
        doc::whole(planted(d, parent, index as int, s).map, s.id, depth(s)),
        doc::snap(planted(d, parent, index as int, s).map, s.id, depth(s)) == s,
{
    let n = planted(d, parent, index as int, s);
    let g = doc::graft(d, s);
    let f = depth(s);
    lemma_graft_reads_back(d, s, f);
    assert forall|k: Seq<char>| #[trigger] doc::mentions(doc::snap(g.map, s.id, f), k) implies n.has(
        k,
    ) && n.map[k] == g.map[k] by {
        lemma_planted(d, parent, index, s, k);
    }
    lemma_snap_local(g.map, n.map, s.id, f);
}

proof fn lemma_planted_whole(
    d: Nodes,
    parent: Seq<char>,
    index: usize,
    s: SnapView,
    k: Seq<char>,
    f: nat,
)
    requires
        d.has(parent),
        index <= d.map[parent].children.len(),
        distinct(s),
        forall|id: Seq<char>| #[trigger] doc::mentions(s, id) ==> !d.has(id),
        doc::whole(d.map, k, f),
    ensures
        doc::whole(planted(d, parent, index as int, s).map, k, f + depth(s)),
    decreases f,
{
    let n = planted(d, parent, index as int, s);
    lemma_planted(d, parent, index, s, k);
    let kids = n.map[k].children;
    let h = (f + depth(s) - 1) as nat;
    assert forall|i: int| 0 <= i < kids.len() implies doc::whole(n.map, #[trigger] kids[i], h) by {
        let was = d.map[k].children;
        if k == parent && i == index {
            lemma_planted_reads_back(d, parent, index, s);
            lemma_snap_fuel(n.map, s.id, depth(s), h);
        } else {
            let j = if k == parent && i > index {
                i - 1
            } else {
                i
            };
            assert(kids[i] == was[j]);
            assert(doc::whole(d.map, was[j], (f - 1) as nat));
            lemma_planted_whole(d, parent, index, s, was[j], (f - 1) as nat);
        }
    }
}

/// Where the listings of a planted table come from.
proof fn lemma_planted_lists(
    d: Nodes,
    root: Seq<char>,
    parent: Seq<char>,
    index: usize,
    s: SnapView,
    p: Seq<char>,
    i: int,
    c: Seq<char>,
)
    requires
        is_tree(d.map, root),
        d.has(parent),
        index <= d.map[parent].children.len(),
        distinct(s),
        forall|id: Seq<char>| #[trigger] doc::mentions(s, id) ==> !d.has(id),
        lists(planted(d, parent, index as int, s).map, p, i, c),
    ensures
        doc::mentions(s, p) ==> doc::mentions(s, c) && c != s.id,
        !doc::mentions(s, p) && c != s.id ==> d.has(c) && lists(
            d.map,
            p,
            if p == parent && i > index {
                i - 1
            } else {
                i
            },
            c,
        ) && !(p == parent && i == index),
        !doc::mentions(s, p) && c == s.id ==> p == parent && i == index,
{
    let n = planted(d, parent, index as int, s);
    lemma_planted(d, parent, index, s, p);
    if doc::mentions(s, p) {
        lemma_planted_reads_back(d, parent, index, s);
        lemma_mentions_children(n.map, s.id, depth(s), p, i);
        if c == s.id {
            lemma_no_cycle(n.map, s.id, depth(s), p, i);
        }
    } else {
        assert(doc::mentions(s, s.id));
        let j = if p == parent && i > index {
            i - 1
        } else {
            i
        };
        if !(p == parent && i == index) {
            assert(lists(d.map, p, j, c));
            assert(doc::grounded(d.map, p));
            let f = choose|f: nat| doc::whole(d.map, p, f);
            assert(doc::whole(d.map, d.map[p].children[j], (f - 1) as nat));
        }
    }
}

proof fn lemma_planted_hangs(
    d: Nodes,
    root: Seq<char>,
    parent: Seq<char>,
    index: usize,
    s: SnapView,
    k: Seq<char>,
    f: nat,
)
    requires
        d.has(parent),
        index <= d.map[parent].children.len(),
        distinct(s),
        forall|id: Seq<char>| #[trigger] doc::mentions(s, id) ==> !d.has(id),
        hangs(d.map, root, k, f),
    ensures
        hangs(planted(d, parent, index as int, s).map, root, k, f),
    decreases f,
{
    let n = planted(d, parent, index as int, s);
    if f > 0 {
        let (p, i) = choose|p: Seq<char>, i: int| #[trigger]
            lists(d.map, p, i, k) && hangs(d.map, root, p, (f - 1) as nat);
        lemma_planted_hangs(d, root, parent, index, s, p, (f - 1) as nat);
        lemma_planted(d, parent, index, s, p);
        let j = if p == parent && i >= index {
            i + 1
        } else {
            i
        };
        assert(lists(n.map, p, j, k));
    }
}

/// The root leads down to all that stands below a node that it leads to.
pub proof fn lemma_below_hangs(
    m: Map<Seq<char>, NodeView>,
    root: Seq<char>,
    id: Seq<char>,
    f: nat,
    k: Seq<char>,
    n: nat,
)
    requires
        doc::whole(m, id, f),
        doc::mentions(doc::snap(m, id, f), k),
        hangs(m, root, id, n),
    ensures
        reachable(m, root, k),
    decreases f,
{
    if k != id {
        let s = doc::snap(m, id, f);
        let i = choose|i: int|
            0 <= i < s.children.len() && doc::mentions(#[trigger] s.children[i], k);
        let c = m[id].children[i];
        assert(s.children[i] == doc::snap(m, c, (f - 1) as nat));
        assert(lists(m, id, i, c));
        assert(hangs(m, root, c, n + 1));
        lemma_below_hangs(m, root, c, (f - 1) as nat, k, n + 1);
    }
}

/// Planting a subtree whose ids are distinct and free in a tree gives a tree.
pub proof fn lemma_planted_tree(d: Nodes, root: Seq<char>, parent: Seq<char>, index: usize, s: SnapView)
    requires
        is_tree(d.map, root),
        d.tidy(),
        d.has(parent),
        index <= d.map[parent].children.len(),
        distinct(s),
        forall|id: Seq<char>| #[trigger] doc::mentions(s, id) ==> !d.has(id),
    ensures
        is_tree(planted(d, parent, index as int, s).map, root),
        planted(d, parent, index as int, s).tidy(),
{
    let n = planted(d, parent, index as int, s);
    let h = depth(s);
    lemma_planted_reads_back(d, parent, index, s);
    lemma_planted(d, parent, index, s, root);
    assert forall|id: Seq<char>| n.map.dom().contains(id) implies #[trigger] doc::grounded(
        n.map,
        id,
    ) by {
        lemma_planted(d, parent, index, s, id);
        if doc::mentions(s, id) {
            lemma_mentioned(n.map, s.id, h, id);
        } else {
            assert(doc::grounded(d.map, id));
            let f = choose|f: nat| doc::whole(d.map, id, f);
            lemma_planted_whole(d, parent, index, s, id, f);
        }
    }
    assert forall|p: Seq<char>, i: int, q: Seq<char>, j: int, c: Seq<char>|
        #[trigger] lists(n.map, p, i, c) && #[trigger] lists(n.map, q, j, c) implies p == q && i
        == j by {
        lemma_planted_lists(d, root, parent, index, s, p, i, c);
        lemma_planted_lists(d, root, parent, index, s, q, j, c);
        if doc::mentions(s, p) && doc::mentions(s, q) {
            lemma_distinct_lists(n.map, s.id, h, p, i, q, j, c);
        }
    }
    assert forall|p: Seq<char>, i: int| !#[trigger] lists(n.map, p, i, root) by {
        if lists(n.map, p, i, root) {
            lemma_planted_lists(d, root, parent, index, s, p, i, root);
            assert(doc::mentions(s, s.id));
        }
    }
    assert forall|k: Seq<char>| n.map.dom().contains(k) implies #[trigger] reachable(
        n.map,
        root,
        k,
    ) by {
        lemma_planted(d, parent, index, s, k);
        if doc::mentions(s, k) {
            assert(reachable(d.map, root, parent));
            let f = choose|f: nat| hangs(d.map, root, parent, f);
            lemma_planted_hangs(d, root, parent, index, s, parent, f);
            lemma_planted(d, parent, index, s, parent);
            assert(lists(n.map, parent, index as int, s.id));
            assert(hangs(n.map, root, s.id, f + 1));
            lemma_below_hangs(n.map, root, s.id, h, k, f + 1);
        } else {
            assert(reachable(d.map, root, k));
            let f = choose|f: nat| hangs(d.map, root, k, f);
            lemma_planted_hangs(d, root, parent, index, s, k, f);
        }
    }
    lemma_walkable(n.map, root);
    lemma_graft_tidy(d, s);
    let g = doc::graft(d, s);
    textmap::lemma_tidy(
        g,
        parent,
        g.map[parent].with_children(g.map[parent].children.insert(index as int, s.id)),
        Set::empty(),
    );
}

/// Removing a planted subtree gives back the content from before.
pub proof fn lemma_planted_removed(
    d: Nodes,
    root: Seq<char>,
    parent: Seq<char>,
    index: usize,
    s: SnapView,
    later: Nodes,
)
    requires
        is_tree(d.map, root),
        d.tidy(),
        d.has(parent),
        index <= d.map[parent].children.len(),
        distinct(s),
        forall|id: Seq<char>| #[trigger] doc::mentions(s, id) ==> !d.has(id),
        later.map == planted(d, parent, index as int, s).map,
        later.tidy(),
    ensures
        ({
            let op = OpView::RemoveNode { id: s.id };
            let back = doc::detach(later, parent, index as int).without(doc::ids_of(s));
            &&& doc::edit_ready(later, op)
            &&& forall|target: Seq<char>| #[trigger]
                doc::edit(later, target, op) == Ok::<_, crate::commit::PatchErrorView>(
                    (back, OpView::CreateNode { parent, index, snapshot: s }),
                )
            &&& back.map == d.map
            &&& back.tidy()
        }),
{
    let n = later.map;
    let h = depth(s);
    lemma_planted_tree(d, root, parent, index, s);
    lemma_planted_reads_back(d, parent, index, s);
    lemma_planted(d, parent, index, s, s.id);
    lemma_planted(d, parent, index, s, parent);
    assert(doc::mentions(s, s.id));
    assert(lists(n, parent, index as int, s.id));
    lemma_parent_unique(later, parent, index as int, s.id);
    lemma_snapshot(n, s.id, h);
    let cut = doc::detach(later, parent, index as int);
    let back = cut.without(doc::ids_of(s));
    assert(d.map[parent].children.insert(index as int, s.id).remove(index as int)
        =~= d.map[parent].children);
    assert(back.map.dom() =~= d.map.dom()) by {
        assert forall|k: Seq<char>| back.map.dom().contains(k) <==> d.map.dom().contains(k) by {
            lemma_planted(d, parent, index, s, k);
        }
    }
    assert forall|k: Seq<char>| back.map.dom().contains(k) implies back.map[k] == d.map[k] by {
        lemma_planted(d, parent, index, s, k);
    }
    assert(back.map =~= d.map);
    textmap::lemma_tidy(
        later,
        parent,
        later.map[parent].with_children(later.map[parent].children.remove(index as int)),
        Set::empty(),
    );
    textmap::lemma_tidy(cut, s.id, doc::top_node(s), doc::ids_of(s));
}

// ---------------------------------------------------------------- ops that remove a subtree

/// The table after the subtree under `id` was cut off `p`.
pub open spec fn pruned(d: Nodes, p: Seq<char>, ix: int, id: Seq<char>) -> Nodes {
    doc::detach(d, p, ix).without(doc::ids_of(doc::snapshot_of(d.map, id)))
}

/// What cutting a subtree off does to each node.
pub proof fn lemma_pruned(d: Nodes, root: Seq<char>, p: Seq<char>, ix: int, id: Seq<char>, k: Seq<char>)
    requires
        is_tree(d.map, root),
        lists(d.map, p, ix, id),
    ensures
        ({
            let s = doc::snapshot_of(d.map, id);
            let n = pruned(d, p, ix, id);
            &&& s.id == id
            &&& d.has(id)
            &&& !doc::mentions(s, p)
            &&& !doc::mentions(s, root)
            &&& n.has(k) <==> d.has(k) && !doc::mentions(s, k)
            &&& n.has(k) && k != p ==> n.map[k] == d.map[k]
            &&& k == p ==> n.map[k] == d.map[p].with_children(d.map[p].children.remove(ix))
        }),
{
    let m = d.map;
    assert(doc::grounded(m, p));
    let f0 = choose|f: nat| doc::whole(m, p, f);
    assert(doc::whole(m, m[p].children[ix], (f0 - 1) as nat));
    let f = (f0 - 1) as nat;
    lemma_snapshot(m, id, f);
    lemma_snap_top(m, id, f);
    lemma_no_cycle(m, id, f, p, ix);
    let s = doc::snapshot_of(m, id);
    if doc::mentions(s, root) {
        if root == id {
            assert(lists(m, p, ix, root));
        } else {
            let r = lemma_mentioned_by(m, id, f, root);
            assert(lists(m, r.0, r.1, root));
        }
    }
}

/// What stays after the cut lists only what stays.
proof fn lemma_pruned_lists(
    d: Nodes,
    root: Seq<char>,
    p: Seq<char>,
    ix: int,
    id: Seq<char>,
    q: Seq<char>,
    i: int,
    c: Seq<char>,
)
    requires
        is_tree(d.map, root),
        lists(d.map, p, ix, id),
        lists(pruned(d, p, ix, id).map, q, i, c),
    ensures
        lists(
            d.map,
            q,
            if q == p && i >= ix {
                i + 1
            } else {
                i
            },
            c,
        ),
        !doc::mentions(doc::snapshot_of(d.map, id), c),
{
    let m = d.map;
    lemma_pruned(d, root, p, ix, id, q);
    let j = if q == p && i >= ix {
        i + 1
    } else {
        i
    };
    assert(lists(m, q, j, c));
    assert(doc::grounded(m, id));
    let f = choose|f: nat| doc::whole(m, id, f);
    lemma_snapshot(m, id, f);
    if doc::mentions(doc::snap(m, id, f), c) {
        if c == id {
            assert(lists(m, p, ix, c) && lists(m, q, j, c));
        } else {
            let r = lemma_mentioned_by(m, id, f, c);
            assert(lists(m, r.0, r.1, c) && lists(m, q, j, c));
        }
    }
}

proof fn lemma_pruned_whole(
    d: Nodes,
    root: Seq<char>,
    p: Seq<char>,
    ix: int,
    id: Seq<char>,
    k: Seq<char>,
    f: nat,
)
    requires
        is_tree(d.map, root),
        lists(d.map, p, ix, id),
        doc::whole(d.map, k, f),
        !doc::mentions(doc::snapshot_of(d.map, id), k),
    ensures
        doc::whole(pruned(d, p, ix, id).map, k, f),
    decreases f,
{
    let n = pruned(d, p, ix, id).map;
    lemma_pruned(d, root, p, ix, id, k);
    assert forall|i: int| 0 <= i < n[k].children.len() implies doc::whole(
        n,
        #[trigger] n[k].children[i],
        (f - 1) as nat,
    ) by {
        let c = n[k].children[i];
        assert(lists(n, k, i, c));
        lemma_pruned_lists(d, root, p, ix, id, k, i, c);
        let j = if k == p && i >= ix {
            i + 1
        } else {
            i
        };
        assert(doc::whole(d.map, d.map[k].children[j], (f - 1) as nat));
        lemma_pruned_whole(d, root, p, ix, id, c, (f - 1) as nat);
    }
}

proof fn lemma_pruned_hangs(
    d: Nodes,
    root: Seq<char>,
    p: Seq<char>,
    ix: int,
    id: Seq<char>,
    k: Seq<char>,
    f: nat,
)
    requires
        is_tree(d.map, root),
        lists(d.map, p, ix, id),
        hangs(d.map, root, k, f),
        !doc::mentions(doc::snapshot_of(d.map, id), k),
    ensures
        hangs(pruned(d, p, ix, id).map, root, k, f),
    decreases f,
{
    let m = d.map;
    let n = pruned(d, p, ix, id).map;
    if f > 0 {
        let (q, i) = choose|q: Seq<char>, i: int| #[trigger]
            lists(m, q, i, k) && hangs(m, root, q, (f - 1) as nat);
        assert(doc::grounded(m, p));
        let e = choose|e: nat| doc::whole(m, p, e);
        assert(doc::whole(m, m[p].children[ix], (e - 1) as nat));
        lemma_snapshot(m, id, (e - 1) as nat);
        if doc::mentions(doc::snapshot_of(m, id), q) {
            lemma_mentions_children(m, id, (e - 1) as nat, q, i);
        }
        lemma_pruned_hangs(d, root, p, ix, id, q, (f - 1) as nat);
        lemma_pruned(d, root, p, ix, id, q);
        lemma_pruned(d, root, p, ix, id, id);
        assert(doc::mentions(doc::snapshot_of(m, id), id));
        let j = if q == p && i > ix {
            i - 1
        } else {
            i
        };
        assert(lists(n, q, j, k));
    }
}

/// Cutting a subtree off a tree leaves a tree.
pub proof fn lemma_pruned_tree(d: Nodes, root: Seq<char>, p: Seq<char>, ix: int, id: Seq<char>)
    requires
        is_tree(d.map, root),
        d.tidy(),
        lists(d.map, p, ix, id),
    ensures
        is_tree(pruned(d, p, ix, id).map, root),
        pruned(d, p, ix, id).tidy(),
{
    let n = pruned(d, p, ix, id);
    lemma_pruned(d, root, p, ix, id, root);
    assert forall|k: Seq<char>| n.map.dom().contains(k) implies #[trigger] doc::grounded(
        n.map,
        k,
    ) by {
        lemma_pruned(d, root, p, ix, id, k);
        assert(doc::grounded(d.map, k));
        let f = choose|f: nat| doc::whole(d.map, k, f);
        lemma_pruned_whole(d, root, p, ix, id, k, f);
    }
    assert forall|a: Seq<char>, i: int, b: Seq<char>, j: int, c: Seq<char>|
        #[trigger] lists(n.map, a, i, c) && #[trigger] lists(n.map, b, j, c) implies a == b && i
        == j by {
        lemma_pruned_lists(d, root, p, ix, id, a, i, c);
        lemma_pruned_lists(d, root, p, ix, id, b, j, c);
    }
    assert forall|a: Seq<char>, i: int| !#[trigger] lists(n.map, a, i, root) by {
        if lists(n.map, a, i, root) {
            lemma_pruned_lists(d, root, p, ix, id, a, i, root);
        }
    }
    assert forall|k: Seq<char>| n.map.dom().contains(k) implies #[trigger] reachable(
        n.map,
        root,
        k,
    ) by {
        lemma_pruned(d, root, p, ix, id, k);
        assert(reachable(d.map, root, k));
        let f = choose|f: nat| hangs(d.map, root, k, f);
        lemma_pruned_hangs(d, root, p, ix, id, k, f);
    }
    lemma_walkable(n.map, root);
    let cut = doc::detach(d, p, ix);
    textmap::lemma_tidy(
        d,
        p,
        d.map[p].with_children(d.map[p].children.remove(ix)),
        Set::empty(),
    );
    textmap::lemma_tidy(cut, p, d.map[p], doc::ids_of(doc::snapshot_of(d.map, id)));
}

/// Rebuilding a subtree that was cut off gives back the content from before.
pub proof fn lemma_pruned_rebuilt(
    d: Nodes,
    root: Seq<char>,
    p: Seq<char>,
    ix: int,
    id: Seq<char>,
    later: Nodes,
)
    requires
        is_tree(d.map, root),
        d.tidy(),
        lists(d.map, p, ix, id),
        d.map[p].children.len() <= usize::MAX,
        later.map == pruned(d, p, ix, id).map,
        later.tidy(),
    ensures
        ({
            let s = doc::snapshot_of(d.map, id);
            let op = OpView::CreateNode { parent: p, index: ix as usize, snapshot: s };
            let back = planted(later, p, ix, s);
            &&& doc::edit_ready(later, op)
            &&& forall|target: Seq<char>| #[trigger]
                doc::edit(later, target, op) == Ok::<_, crate::commit::PatchErrorView>(
                    (back, OpView::RemoveNode { id }),
                )
            &&& back.map == d.map
            &&& back.tidy()
        }),
{
    let m = d.map;
    let s = doc::snapshot_of(m, id);
    lemma_pruned(d, root, p, ix, id, p);
    lemma_pruned(d, root, p, ix, id, id);
    assert(doc::mentions(s, s.id));
    lemma_graft_frame(later, s, p);
    let g = doc::graft(later, s);
    let back = planted(later, p, ix, s);
    assert(doc::grounded(m, id));
    let f = choose|f: nat| doc::whole(m, id, f);
    lemma_snapshot(m, id, f);
    lemma_ids_of_snap(m, id, f);
    lemma_walk_distinct(m, id, f);
    assert forall|k: Seq<char>| #[trigger] doc::mentions(s, k) implies !later.has(k) by {
        lemma_pruned(d, root, p, ix, id, k);
    }
    lemma_clash(later, s);
    assert(m[p].children.remove(ix).insert(ix, id) =~= m[p].children);
    assert(back.map.dom() =~= m.dom()) by {
        assert forall|k: Seq<char>| back.map.dom().contains(k) <==> m.dom().contains(k) by {
            lemma_graft_frame(later, s, k);
            lemma_pruned(d, root, p, ix, id, k);
            if doc::mentions(s, k) {
                lemma_mentioned(m, id, f, k);
            }
        }
    }
    assert forall|k: Seq<char>| back.map.dom().contains(k) implies back.map[k] == m[k] by {
        lemma_graft_frame(later, s, k);
        lemma_pruned(d, root, p, ix, id, k);
        if doc::mentions(s, k) {
            lemma_graft_of_snap(later, m, id, f, k);
        }
    }
    assert(back.map =~= m);
    lemma_graft_tidy(later, s);
    textmap::lemma_tidy(
        g,
        p,
        g.map[p].with_children(g.map[p].children.insert(ix, s.id)),
        Set::empty(),
    );
}

// ---------------------------------------------------------------- ids of snapshots

/// The listed ids are those that the snapshot mentions.
pub proof fn lemma_ids_mention(s: SnapView, k: Seq<char>)
    ensures
        doc::snap_ids(s).contains(k) <==> doc::mentions(s, k),
    decreases s, s.children.len() + 1,
{
    let n = s.children.len();
    lemma_ids_mention_children(s, n, k);
    let kids = doc::snap_ids_children(s, n);
    let all = doc::snap_ids(s);
    assert(all == seq![s.id] + kids);
    if all.contains(k) {
        let x = choose|x: int| 0 <= x < all.len() && all[x] == k;
        if x > 0 {
            assert(kids[x - 1] == k);
        }
    }
    if doc::mentions(s, k) {
        if s.id == k {
            assert(all[0] == k);
        } else {
            let x = choose|x: int| 0 <= x < kids.len() && kids[x] == k;
            assert(all[x + 1] == k);
        }
    }
}

pub proof fn lemma_ids_mention_children(s: SnapView, n: nat, k: Seq<char>)
    requires
        n <= s.children.len(),
    ensures
        doc::snap_ids_children(s, n).contains(k) <==> exists|i: int|
            0 <= i < n && doc::mentions(#[trigger] s.children[i], k),
    decreases s, n,
{
    if n > 0 {
        let head = doc::snap_ids_children(s, (n - 1) as nat);
        let tail = doc::snap_ids(s.children[n - 1]);
        let both = doc::snap_ids_children(s, n);
        lemma_ids_mention_children(s, (n - 1) as nat, k);
        lemma_ids_mention(s.children[n - 1], k);
        assert(both == head + tail);
        if both.contains(k) {
            let x = choose|x: int| 0 <= x < both.len() && both[x] == k;
            if x < head.len() {
                assert(head[x] == k);
            } else {
                assert(tail[x - head.len()] == k);
            }
        }
        if head.contains(k) {
            let x = choose|x: int| 0 <= x < head.len() && head[x] == k;
            assert(both[x] == k);
        }
        if tail.contains(k) {
            let x = choose|x: int| 0 <= x < tail.len() && tail[x] == k;
            assert(both[head.len() + x] == k);
        }
    }
}

/// A list without repetitions comes from a snapshot in which no id stands twice.
proof fn lemma_ids_distinct(s: SnapView)
    requires
        doc::snap_ids(s).no_duplicates(),
    ensures
        distinct(s),
    decreases s, s.children.len() + 1,
{
    let n = s.children.len();
    let kids = doc::snap_ids_children(s, n);
    let all = doc::snap_ids(s);
    assert(all == seq![s.id] + kids);
    assert(kids.no_duplicates()) by {
        assert forall|x: int, y: int| 0 <= x < kids.len() && 0 <= y < kids.len() && x != y implies kids[x]
            != kids[y] by {
            assert(all[x + 1] == kids[x] && all[y + 1] == kids[y]);
        }
    }
    lemma_ids_distinct_children(s, n);
    assert forall|i: int| 0 <= i < n implies !doc::mentions(#[trigger] s.children[i], s.id) by {
        if doc::mentions(s.children[i], s.id) {
            lemma_ids_mention_children(s, n, s.id);
            let x = choose|x: int| 0 <= x < kids.len() && kids[x] == s.id;
            assert(all[x + 1] == all[0]);
        }
    }
}

proof fn lemma_ids_distinct_children(s: SnapView, n: nat)
    requires
        n <= s.children.len(),
        doc::snap_ids_children(s, n).no_duplicates(),
    ensures
        forall|i: int, j: int, id: Seq<char>|
            0 <= i < j < n && #[trigger] doc::mentions(s.children[i], id)
                ==> !#[trigger] doc::mentions(s.children[j], id),
        forall|i: int| 0 <= i < n ==> distinct(#[trigger] s.children[i]),
    decreases s, n,
{
    if n > 0 {
        let head = doc::snap_ids_children(s, (n - 1) as nat);
        let tail = doc::snap_ids(s.children[n - 1]);
        let both = doc::snap_ids_children(s, n);
        assert(both == head + tail);
        assert forall|x: int, y: int| 0 <= x < head.len() && 0 <= y < head.len() && x != y implies head[x]
            != head[y] by {
            assert(both[x] == head[x] && both[y] == head[y]);
        }
        assert forall|x: int, y: int| 0 <= x < tail.len() && 0 <= y < tail.len() && x != y implies tail[x]
            != tail[y] by {
            assert(both[head.len() + x] == tail[x] && both[head.len() + y] == tail[y]);
        }
        lemma_ids_distinct_children(s, (n - 1) as nat);
        lemma_ids_distinct(s.children[n - 1]);
        assert forall|i: int, j: int, id: Seq<char>|
            0 <= i < j < n && #[trigger] doc::mentions(s.children[i], id) implies !#[trigger] doc::mentions(
            s.children[j],
            id,
        ) by {
            if j == n - 1 && doc::mentions(s.children[j], id) {
                lemma_ids_mention_children(s, (n - 1) as nat, id);
                lemma_ids_mention(s.children[j], id);
                let x = choose|x: int| 0 <= x < head.len() && head[x] == id;
                let y = choose|y: int| 0 <= y < tail.len() && tail[y] == id;
                assert(both[x] == both[head.len() + y]);
            }
        }
    }
}

/// The ids of a complete subtree are listed in the order of a walk.
pub proof fn lemma_ids_of_snap(m: Map<Seq<char>, NodeView>, id: Seq<char>, f: nat)
    requires
        doc::whole(m, id, f),
    ensures
        doc::snap_ids(doc::snap(m, id, f)) == doc::walk(m, id, f),
    decreases f, 0nat,
{
    let n = m[id].children.len();
    lemma_ids_of_snap_children(m, id, n, f);
}

proof fn lemma_ids_of_snap_children(m: Map<Seq<char>, NodeView>, id: Seq<char>, n: nat, f: nat)
    requires
        doc::whole(m, id, f),
        n <= m[id].children.len(),
    ensures
        doc::snap_ids_children(doc::snap(m, id, f), n) == doc::walk_children(
            m,
            m[id].children,
            n,
            (f - 1) as nat,
        ),
    decreases f - 1, n,
{
    if n > 0 {
        let c = m[id].children[n - 1];
        lemma_ids_of_snap_children(m, id, (n - 1) as nat, f);
        assert(doc::whole(m, c, (f - 1) as nat));
        assert(doc::snap(m, id, f).children[n - 1] == doc::snap(m, c, (f - 1) as nat));
        lemma_ids_of_snap(m, c, (f - 1) as nat);
    }
}

/// Where an id clashes, one clashes first.
pub proof fn lemma_some_first_clash(d: Nodes, ids: Seq<Seq<char>>, i: int)
    requires
        0 <= i < ids.len(),
        doc::clashes(d, ids, i),
    ensures
        doc::clash(d, ids) is Some,
    decreases i,
{
    if exists|j: int| 0 <= j < i && #[trigger] doc::clashes(d, ids, j) {
        let j = choose|j: int| 0 <= j < i && #[trigger] doc::clashes(d, ids, j);
        lemma_some_first_clash(d, ids, j);
    } else {
        assert(doc::first_clash(d, ids, i));
    }
}

/// There is no clash exactly if the ids of the snapshot are distinct and free.
pub proof fn lemma_clash(d: Nodes, s: SnapView)
    ensures
        doc::clash(d, doc::snap_ids(s)) is None <==> {
            &&& doc::snap_ids(s).no_duplicates()
            &&& forall|k: Seq<char>| #[trigger] doc::mentions(s, k) ==> !d.has(k)
        },
        doc::clash(d, doc::snap_ids(s)) is None ==> distinct(s),
{
    let ids = doc::snap_ids(s);
    if doc::clash(d, ids) is None {
        assert forall|x: int, y: int| 0 <= x < ids.len() && 0 <= y < ids.len() && x != y implies ids[x]
            != ids[y] by {
            if ids[x] == ids[y] {
                assert(doc::clashes(d, ids, x));
                lemma_some_first_clash(d, ids, x);
            }
        }
        assert forall|k: Seq<char>| #[trigger] doc::mentions(s, k) implies !d.has(k) by {
            lemma_ids_mention(s, k);
            let x = choose|x: int| 0 <= x < ids.len() && ids[x] == k;
            if d.has(k) {
                assert(doc::clashes(d, ids, x));
                lemma_some_first_clash(d, ids, x);
            }
        }
        lemma_ids_distinct(s);
    } else {
        let i = choose|i: int| doc::first_clash(d, ids, i);
        assert(doc::clashes(d, ids, i));
        assert(ids.contains(ids[i]));
        lemma_ids_mention(s, ids[i]);
    }
}

// ---------------------------------------------------------------- walks

/// A subtree whose top is not in another one, and that does not list the top of that one, shares
/// no node with it.
proof fn lemma_apart(
    m: Map<Seq<char>, NodeView>,
    a: Seq<char>,
    f: nat,
    b: Seq<char>,
    g: nat,
    p: Seq<char>,
    j: int,
)
    requires
        doc::whole(m, a, f),
        doc::whole(m, b, g),
        listed_once(m),
        lists(m, p, j, b),
        !doc::mentions(doc::snap(m, a, f), p),
        !doc::mentions(doc::snap(m, b, g), a),
    ensures
        forall|k: Seq<char>| #[trigger]
            doc::mentions(doc::snap(m, a, f), k) ==> !doc::mentions(doc::snap(m, b, g), k),
    decreases f,
{
    let s = doc::snap(m, a, f);
    let kids = m[a].children;
    let h = (f - 1) as nat;
    assert forall|k: Seq<char>| #[trigger] doc::mentions(s, k) implies !doc::mentions(
        doc::snap(m, b, g),
        k,
    ) by {
        if k != a {
            let i = choose|i: int|
                0 <= i < s.children.len() && doc::mentions(#[trigger] s.children[i], k);
            let c = kids[i];
            assert(s.children[i] == doc::snap(m, c, h));
            assert(lists(m, a, i, c));
            if doc::mentions(doc::snap(m, b, g), c) && c != b {
                let r = lemma_mentioned_by(m, b, g, c);
                assert(lists(m, r.0, r.1, c));
            }
            if doc::mentions(doc::snap(m, c, h), p) {
                assert(doc::mentions(s.children[i], p));
            }
            lemma_apart(m, c, h, b, g, p, j);
        }
    }
}

/// A walk through a tree comes to each node once, and to nothing but the subtree.
pub proof fn lemma_walk_distinct(m: Map<Seq<char>, NodeView>, id: Seq<char>, f: nat)
    requires
        doc::whole(m, id, f),
        listed_once(m),
    ensures
        doc::walk(m, id, f).no_duplicates(),
        forall|k: Seq<char>| #[trigger]
            doc::walk(m, id, f).contains(k) ==> doc::mentions(doc::snap(m, id, f), k),
    decreases f, 0nat,
{
    let kids = m[id].children;
    let g = (f - 1) as nat;
    let s = doc::snap(m, id, f);
    lemma_walk_children_distinct(m, id, kids.len(), f);
    let tail = doc::walk_children(m, kids, kids.len(), g);
    let w = doc::walk(m, id, f);
    assert(w == seq![id] + tail);
    assert forall|k: Seq<char>| #[trigger] tail.contains(k) implies doc::mentions(s, k) && k
        != id by {
        let i = choose|i: int|
            0 <= i < kids.len() && doc::mentions(doc::snap(m, #[trigger] kids[i], g), k);
        assert(s.children[i] == doc::snap(m, kids[i], g));
        assert(doc::mentions(s.children[i], k));
        assert(lists(m, id, i, kids[i]));
        lemma_no_cycle(m, kids[i], g, id, i);
    }
    assert forall|k: Seq<char>| #[trigger] w.contains(k) implies doc::mentions(s, k) by {
        let x = choose|x: int| 0 <= x < w.len() && w[x] == k;
        if x > 0 {
            assert(tail[x - 1] == k);
            assert(tail.contains(k));
        }
    }
    assert forall|x: int, y: int| 0 <= x < w.len() && 0 <= y < w.len() && x != y implies w[x]
        != w[y] by {
        if x > 0 {
            assert(w[x] == tail[x - 1]);
            assert(tail.contains(w[x]));
        }
        if y > 0 {
            assert(w[y] == tail[y - 1]);
            assert(tail.contains(w[y]));
        }
    }
}

proof fn lemma_walk_children_distinct(
    m: Map<Seq<char>, NodeView>,
    id: Seq<char>,
    n: nat,
    f: nat,
)
    requires
        doc::whole(m, id, f),
        listed_once(m),
        n <= m[id].children.len(),
    ensures
        doc::walk_children(m, m[id].children, n, (f - 1) as nat).no_duplicates(),
        forall|k: Seq<char>| #[trigger]
            doc::walk_children(m, m[id].children, n, (f - 1) as nat).contains(k) ==> exists|i: int|
                0 <= i < n && doc::mentions(
                    doc::snap(m, #[trigger] m[id].children[i], (f - 1) as nat),
                    k,
                ),
    decreases f - 1, n,
{
    let kids = m[id].children;
    let g = (f - 1) as nat;
    if n > 0 {
        let b = kids[n - 1];
        lemma_walk_children_distinct(m, id, (n - 1) as nat, f);
        assert(doc::whole(m, b, g));
        lemma_walk_distinct(m, b, g);
        let head = doc::walk_children(m, kids, (n - 1) as nat, g);
        let tail = doc::walk(m, b, g);
        let both = doc::walk_children(m, kids, n, g);
        assert(both == head + tail);
        assert(lists(m, id, n - 1, b));
        lemma_no_cycle(m, b, g, id, n - 1);
        assert forall|k: Seq<char>| #[trigger] head.contains(k) implies !tail.contains(k) by {
            let i = choose|i: int|
                0 <= i < n - 1 && doc::mentions(doc::snap(m, #[trigger] kids[i], g), k);
            let a = kids[i];
            assert(lists(m, id, i, a));
            assert(doc::whole(m, a, g));
            lemma_no_cycle(m, a, g, id, i);
            if doc::mentions(doc::snap(m, b, g), a) && a != b {
                let r = lemma_mentioned_by(m, b, g, a);
                assert(lists(m, r.0, r.1, a));
            }
            lemma_apart(m, a, g, b, g, id, n - 1);
        }
        assert forall|k: Seq<char>| #[trigger] both.contains(k) implies exists|i: int|
            0 <= i < n && doc::mentions(doc::snap(m, #[trigger] kids[i], g), k) by {
            let x = choose|x: int| 0 <= x < both.len() && both[x] == k;
            if x < head.len() {
                assert(head[x] == k);
                assert(head.contains(k));
            } else {
                assert(tail[x - head.len()] == k);
                assert(tail.contains(k));
                assert(doc::mentions(doc::snap(m, kids[n - 1], g), k));
            }
        }
        assert forall|x: int, y: int| 0 <= x < both.len() && 0 <= y < both.len() && x
            != y implies both[x] != both[y] by {
            if x < head.len() {
                assert(head.contains(both[x]));
            } else {
                assert(both[x] == tail[x - head.len()]);
                assert(tail.contains(both[x]));
            }
            if y < head.len() {
                assert(head.contains(both[y]));
            } else {
                assert(both[y] == tail[y - head.len()]);
                assert(tail.contains(both[y]));
            }
        }
    }
}

/// A walk from the root comes to every node that the root leads to.
pub proof fn lemma_walk_reaches(
    m: Map<Seq<char>, NodeView>,
    root: Seq<char>,
    f: nat,
    k: Seq<char>,
    n: nat,
)
    requires
        doc::whole(m, root, f),
        hangs(m, root, k, n),
    ensures
        doc::walk(m, root, f).contains(k),
        doc::mentions(doc::snap(m, root, f), k),
    decreases n,
{
    let s = doc::snap(m, root, f);
    if n == 0 {
        assert(s.id == root);
    } else {
        let (p, i) = choose|p: Seq<char>, i: int| #[trigger]
            lists(m, p, i, k) && hangs(m, root, p, (n - 1) as nat);
        lemma_walk_reaches(m, root, f, p, (n - 1) as nat);
        lemma_mentions_children(m, root, f, p, i);
    }
    lemma_ids_of_snap(m, root, f);
    lemma_ids_mention(s, k);
}

} // verus!
