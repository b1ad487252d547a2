//! The prose model: an ordered tree of nodes, edited by ops that know their inverse.
use crate::commit::{DocumentModel, PatchError, PatchErrorView};
use crate::doc;
use crate::doc::{Doc, NodeView};
use crate::laws;
use crate::offsets::{split_text, CharIndex, CharRange, Pos};
use crate::ops;
use crate::ops::{
    NodeId, NodeKind, NodeSnapshot, Op, OpView, Patch, PatchId, PatchSource,
    PatchView, Target,
};
use crate::text;
use crate::text::{join, measure, same_text};
use crate::textmap;
use crate::textmap::{Dict, TextMap};
use crate::tree;
use vstd::prelude::*;
use vstd::string::*;

verus! {

/// The data of one node: its own text and its children in order.
pub struct NodeData {
    pub kind: NodeKind,
    pub text: String,
    pub children: Vec<NodeId>,
}

impl View for NodeData {
    type V = NodeView;

    open spec fn view(&self) -> NodeView {
        NodeView { kind: self.kind, text: self.text@, children: ops::seen(self.children@) }
    }
}

/// An ordered tree of nodes. `root` is the top-level container; sections are its children, or
/// children of deeper nodes.
pub struct ProseModel {
    pub nodes: TextMap<NodeData>,
    pub root: NodeId,
    /// Counts the ops that were applied.
    pub rev: u64,
    /// The node that holds the table of contents, once it is registered.
    pub toc: Option<NodeId>,
}

impl View for ProseModel {
    type V = Doc;

    open spec fn view(&self) -> Doc {
        Doc {
            nodes: self.nodes@,
            root: self.root@,
            rev: self.rev,
            toc: match self.toc {
                Some(t) => Some(t@),
                None => None,
            },
        }
    }
}

impl ProseModel {
    /// A document with nothing but its root.
    pub fn new() -> (r: Self)
        ensures
            r@ == (Doc {
                nodes: Dict::empty().put("root"@, NodeView::leaf(Seq::empty())),
                root: "root"@,
                rev: 0,
                toc: None,
            }),
            r@.sound(),
    {
        proof {
            laws::law_new_document_is_sound();
        }
        let root = NodeId("root".to_string());
        let mut nodes: TextMap<NodeData> = TextMap::new();
        let data = NodeData { kind: NodeKind::Paragraph, text: String::new(), children: Vec::new() };
        proof {
            assert(data@ =~= NodeView::leaf(Seq::empty()));
        }
        nodes.insert("root".to_string(), data);
        ProseModel { nodes, root, rev: 0, toc: None }
    }

    /// The id of the top-level container.
    pub fn root(&self) -> (r: &NodeId)
        ensures
            r@ == self@.root,
    {
        &self.root
    }

    /// The revision number.
    pub fn rev(&self) -> (r: u64)
        ensures
            r == self@.rev,
    {
        self.rev
    }

    /// Registers the node that holds the table of contents.
    pub fn set_toc(&mut self, id: &str)
        ensures
            final(self)@ == (Doc { toc: Some(id@), ..old(self)@ }),
            old(self)@.sound() ==> final(self)@.sound(),
    {
        self.toc = Some(NodeId(id.to_string()));
    }

    /// Sets the text of a node. A node that is not there yet is added as the last child of the root.
    pub fn insert(&mut self, id: &str, text: &str)
        requires
            old(self)@.nodes.has(id@) || old(self)@.nodes.has(old(self)@.root),
        ensures
            ({
                let d = old(self)@.nodes;
                let root = old(self)@.root;
                final(self)@ == (Doc {
                    nodes: if d.has(id@) {
                        d.put(id@, d.map[id@].with_text(text@))
                    } else {
                        doc::attach(
                            d.put(id@, NodeView::leaf(text@)),
                            root,
                            d.map[root].children.len() as int,
                            id@,
                        )
                    },
                    ..old(self)@
                })
            }),
            old(self)@.sound() ==> final(self)@.sound(),
    {
        let ghost before = self@;
        let ghost d = self.nodes@;
        let ghost at = d.map[before.root].children.len() as usize;
        proof {
            if before.sound() {
                laws::law_ops_keep_the_tree(before, id@, OpView::SetMarkdown { md: text@ });
                laws::law_ops_keep_the_tree(
                    before,
                    id@,
                    OpView::InsertSection { parent: before.root, index: at, id: id@, text: text@ },
                );
            }
        }
        let _ = measure(text);
        if self.nodes.contains_key(id) {
            let _ = self.set_text(&NodeId(id.to_string()), text.to_string());
            return;
        }
        let data = NodeData {
            kind: NodeKind::Paragraph,
            text: text.to_string(),
            children: Vec::new(),
        };
        proof {
            assert(data@ =~= NodeView::leaf(text@));
        }
        self.nodes.insert(id.to_string(), data);
        proof {
            lemma_countable_put(d, self.nodes@, id@);
        }
        let root = self.root.clone();
        let len = self.child_count(&root);
        self.attach_child(root, len, NodeId(id.to_string()));
    }

    /// The number of children of a node.
    fn child_count(&self, id: &NodeId) -> (r: usize)
        requires
            self@.nodes.has(id@),
        ensures
            r == self@.nodes.map[id@].children.len(),
    {
        match self.nodes.get(id.0.as_str()) {
            Some(n) => n.children.len(),
            None => 0,
        }
    }

    /// Makes `id` child number `index` of `parent`.
    fn attach_child(&mut self, parent: NodeId, index: usize, id: NodeId)
        requires
            old(self)@.nodes.has(parent@),
            index <= old(self)@.nodes.map[parent@].children.len(),
        ensures
            final(self)@ == (Doc {
                nodes: doc::attach(old(self)@.nodes, parent@, index as int, id@),
                ..old(self)@
            }),
            tree::countable(old(self)@.nodes.map) ==> tree::countable(final(self)@.nodes.map),
    {
        let ghost d = self.nodes@;
        if let Some(node) = self.nodes.get_mut(parent.0.as_str()) {
            let ghost before = node.children@;
            node.children.insert(index, id);
            let _ = node.children.len();
            proof {
                assert(ops::seen(node.children@).len() <= usize::MAX);
                assert(ops::seen(node.children@) =~= ops::seen(before).insert(index as int, id@));
            }
        }
        proof {
            lemma_countable_put(d, self.nodes@, parent@);
        }
    }

    /// The ids of the children of a node, in order.
    pub fn children(&self, id: &NodeId) -> (r: Option<&[NodeId]>)
        ensures
            match r {
                Some(c) => self@.nodes.has(id@) && ops::seen(c@)
                    == self@.nodes.map[id@].children,
                None => !self@.nodes.has(id@),
            },
    {
        match self.nodes.get(id.0.as_str()) {
            Some(n) => Some(n.children.as_slice()),
            None => None,
        }
    }

    /// The block type of a node.
    pub fn node_kind(&self, id: &NodeId) -> (r: Option<NodeKind>)
        ensures
            r == (if self@.nodes.has(id@) {
                Some(self@.nodes.map[id@].kind)
            } else {
                None
            }),
    {
        match self.nodes.get(id.0.as_str()) {
            Some(n) => Some(n.kind),
            None => None,
        }
    }

    /// The node that lists `child`, and the place of `child` in its list.
    fn find_parent(&self, child: &NodeId) -> (r: Option<(NodeId, usize)>)
        ensures
            match r {
                Some((p, i)) => doc::parent_of(self@.nodes, child@) == Some((p@, i as int))
                    && self@.nodes.has(p@) && i < self@.nodes.map[p@].children.len(),
                None => doc::parent_of(self@.nodes, child@) is None,
            },
    {
        let ghost d = self.nodes@;
        let mut k: usize = 0;
        while k < self.nodes.entries.len()
            invariant
                k <= self.nodes.entries@.len(),
                d == self.nodes@,
                forall|j: int|
                    0 <= j < k ==> !(#[trigger] d.map[d.order[j]]).children.contains(child@),
            decreases self.nodes.entries@.len() - k,
        {
            let key = &self.nodes.entries[k].0;
            proof {
                textmap::lemma_dict_tidy(self.nodes.entries@);
                assert(d.order[k as int] == key@);
                assert(d.order.contains(key@));
            }
            if let Some(node) = self.nodes.get(key.as_str()) {
                let ghost ids = node@.children;
                let mut i: usize = 0;
                while i < node.children.len()
                    invariant
                        i <= node.children@.len(),
                        ids == ops::seen(node.children@),
                        ids == d.map[key@].children,
                        k < self.nodes.entries@.len(),
                        d == self.nodes@,
                        d.order[k as int] == key@,
                        d.has(key@),
                        forall|j: int| 0 <= j < i ==> #[trigger] ids[j] != child@,
                        forall|j: int|
                            0 <= j < k ==> !(#[trigger] d.map[d.order[j]]).children.contains(
                                child@,
                            ),
                    decreases node.children@.len() - i,
                {
                    if same_text(node.children[i].0.as_str(), child.0.as_str()) {
                        proof {
                            assert(ids[i as int] == child@);
                            assert(ids.contains(child@));
                            lemma_parent(d, child@, k as int, i as int);
                        }
                        return Some((NodeId(key.clone()), i));
                    }
                    i += 1;
                }
                proof {
                    assert(!ids.contains(child@));
                }
            }
            k += 1;
        }
        proof {
            if exists|i: int| doc::first_lister(d, child@, i) {
                let i = choose|i: int| doc::first_lister(d, child@, i);
                assert(!d.map[d.order[i]].children.contains(child@));
            }
        }
        None
    }

    /// Takes a picture of the subtree under `id`.
    fn snapshot(&self, id: &NodeId, Ghost(fuel): Ghost<nat>) -> (r: NodeSnapshot)
        requires
            doc::whole(self@.nodes.map, id@, fuel),
        ensures
            r@ == doc::snap(self@.nodes.map, id@, fuel),
        decreases fuel,
    {
        let ghost m = self@.nodes.map;
        match self.nodes.get(id.0.as_str()) {
            Some(data) => {
                let mut children: Vec<NodeSnapshot> = Vec::new();
                let mut i: usize = 0;
                while i < data.children.len()
                    invariant
                        i <= data.children@.len(),
                        fuel > 0,
                        m == self@.nodes.map,
                        m.dom().contains(id@),
                        data@ == m[id@],
                        doc::whole(m, id@, fuel),
                        children@.len() == i,
                        forall|j: int|
                            0 <= j < i ==> (#[trigger] children@[j])@ == doc::snap(
                                m,
                                data@.children[j],
                                (fuel - 1) as nat,
                            ),
                    decreases data.children@.len() - i,
                {
                    proof {
                        assert(m[id@].children[i as int] == data.children@[i as int]@);
                    }
                    let c = self.snapshot(&data.children[i], Ghost((fuel - 1) as nat));
                    children.push(c);
                    i += 1;
                }
                let r = NodeSnapshot {
                    id: id.clone(),
                    kind: data.kind,
                    text: data.text.clone(),
                    children,
                };
                proof {
                    assert(r@.children =~= doc::snap(m, id@, fuel).children);
                }
                r
            },
            None => NodeSnapshot {
                id: id.clone(),
                kind: NodeKind::Paragraph,
                text: String::new(),
                children: Vec::new(),
            },
        }
    }

    /// Enters the nodes of a snapshot in the table; no node is made their parent.
    fn restore_subtree(&mut self, snap: &NodeSnapshot)
        ensures
            final(self)@ == (Doc { nodes: doc::graft(old(self)@.nodes, snap@), ..old(self)@ }),
            tree::countable(old(self)@.nodes.map) ==> tree::countable(final(self)@.nodes.map),
        decreases *snap,
    {
        let ghost before = self.nodes@;
        let _ = measure(snap.text.as_str());
        let _ = snap.children.len();
        let mut ids: Vec<NodeId> = Vec::new();
        let mut k: usize = 0;
        while k < snap.children.len()
            invariant
                k <= snap.children@.len(),
                ids@.len() == k,
                forall|j: int| 0 <= j < k ==> (#[trigger] ids@[j])@ == snap.children@[j].id@,
            decreases snap.children@.len() - k,
        {
            ids.push(snap.children[k].id.clone());
            k += 1;
        }
        let data = NodeData { kind: snap.kind, text: snap.text.clone(), children: ids };
        proof {
            assert forall|j: int| 0 <= j < snap.children@.len() implies #[trigger] data@.children[j]
                == snap@.child_ids()[j] by {
                assert(snap@.children[j] == snap.children@[j]@);
            }
            assert(data@.children =~= snap@.child_ids());
        }
        self.nodes.insert(snap.id.0.clone(), data);
        proof {
            lemma_countable_put(before, self.nodes@, snap.id@);
        }
        let ghost start = self@;
        let mut i: usize = 0;
        while i < snap.children.len()
            invariant
                i <= snap.children@.len(),
                self@ == (Doc { nodes: doc::graft_children(start.nodes, snap@, i as nat), ..start }),
                tree::countable(before.map) ==> tree::countable(self@.nodes.map),
            decreases snap.children@.len() - i,
        {
            proof {
                assert(snap@.children[i as int] == snap.children@[i as int]@);
            }
            self.restore_subtree(&snap.children[i]);
            i += 1;
        }
    }

    /// Takes every node of a snapshot out of the table; the parent's list is left alone.
    fn remove_subtree(&mut self, snap: &NodeSnapshot)
        ensures
            final(self)@ == (Doc {
                nodes: old(self)@.nodes.without(doc::ids_of(snap@)),
                ..old(self)@
            }),
        decreases *snap,
    {
        let ghost before = self@;
        let ghost mut gone: Set<Seq<char>> = set![snap.id@];
        self.nodes.remove(snap.id.0.as_str());
        let mut i: usize = 0;
        while i < snap.children.len()
            invariant
                i <= snap.children@.len(),
                self@ == (Doc { nodes: before.nodes.without(gone), ..before }),
                forall|id: Seq<char>|
                    #[trigger] gone.contains(id) <==> id == snap.id@ || exists|j: int|
                        0 <= j < i && doc::mentions(#[trigger] snap@.children[j], id),
            decreases snap.children@.len() - i,
        {
            let ghost more = doc::ids_of(snap@.children[i as int]);
            proof {
                assert(snap@.children[i as int] == snap.children@[i as int]@);
            }
            self.remove_subtree(&snap.children[i]);
            proof {
                textmap::lemma_without_twice(before.nodes, gone, more);
                let was = gone;
                gone = gone.union(more);
                assert forall|id: Seq<char>| #[trigger] gone.contains(id) <==> id == snap.id@
                    || exists|j: int|
                    0 <= j < i + 1 && doc::mentions(#[trigger] snap@.children[j], id) by {
                    assert(more.contains(id) <==> doc::mentions(snap@.children[i as int], id));
                    assert(was.contains(id) <==> id == snap.id@ || exists|j: int|
                        0 <= j < i && doc::mentions(#[trigger] snap@.children[j], id));
                    if was.contains(id) && id != snap.id@ {
                        let j = choose|j: int|
                            0 <= j < i && doc::mentions(#[trigger] snap@.children[j], id);
                        assert(0 <= j < i + 1 && doc::mentions(snap@.children[j], id));
                    }
                }
            }
            i += 1;
        }
        proof {
            assert(gone =~= doc::ids_of(snap@));
        }
    }

    /// Collects the texts of the headings from `id` down, in document order.
    fn collect_headings(&self, id: &NodeId, out: &mut Vec<String>, Ghost(fuel): Ghost<nat>)
        requires
            doc::bounded(self@.nodes.map, id@, fuel),
        ensures
            ops::seen(final(out)@) == ops::seen(old(out)@) + doc::titles(
                self@.nodes.map,
                doc::walk(self@.nodes.map, id@, fuel),
            ),
        decreases fuel,
    {
        let ghost m = self@.nodes.map;
        let ghost begin = ops::seen(out@);
        if let Some(nd) = self.nodes.get(id.0.as_str()) {
            proof {
                lemma_titles_one(m, id@);
            }
            if let NodeKind::Heading { level: _ } = nd.kind {
                out.push(nd.text.clone());
                proof {
                    assert(ops::seen(out@) =~= begin.push(nd.text@));
                }
            }
            let ghost kids = m[id@].children;
            proof {
                assert(ops::seen(out@) =~= begin + doc::titles(m, seq![id@]));
                assert(doc::walk_children(m, kids, 0, (fuel - 1) as nat) =~= Seq::empty());
                assert(seq![id@] + Seq::<Seq<char>>::empty() =~= seq![id@]);
            }
            let mut i: usize = 0;
            while i < nd.children.len()
                invariant
                    i <= nd.children@.len(),
                    fuel > 0,
                    m == self@.nodes.map,
                    m.dom().contains(id@),
                    kids == m[id@].children,
                    kids == ops::seen(nd.children@),
                    doc::bounded(m, id@, fuel),
                    ops::seen(out@) == begin + doc::titles(
                        m,
                        seq![id@] + doc::walk_children(m, kids, i as nat, (fuel - 1) as nat),
                    ),
                decreases nd.children@.len() - i,
            {
                proof {
                    assert(kids[i as int] == nd.children@[i as int]@);
                }
                self.collect_headings(&nd.children[i], out, Ghost((fuel - 1) as nat));
                proof {
                    let a = seq![id@] + doc::walk_children(m, kids, i as nat, (fuel - 1) as nat);
                    let b = doc::walk(m, kids[i as int], (fuel - 1) as nat);
                    lemma_titles_add(m, a, b);
                    assert(a + b =~= seq![id@] + doc::walk_children(
                        m,
                        kids,
                        (i + 1) as nat,
                        (fuel - 1) as nat,
                    ));
                }
                i += 1;
            }
        } else {
            proof {
                reveal(Seq::filter);
                assert(doc::titles(m, Seq::empty()) =~= Seq::empty());
            }
        }
    }

    /// The table of contents: a line `- title` for each heading.
    fn build_toc(&self) -> (r: String)
        requires
            doc::walkable(self@.nodes.map, self@.root),
        ensures
            r@ == doc::toc_text(self@.nodes.map, self@.root),
    {
        let ghost m = self@.nodes.map;
        let ghost fuel = choose|f: nat| doc::bounded(m, self@.root, f);
        let mut titles: Vec<String> = Vec::new();
        self.collect_headings(&self.root, &mut titles, Ghost(fuel));
        let ghost want = doc::titles(m, doc::preorder(m, self@.root));
        proof {
            doc::lemma_preorder(m, self@.root, fuel);
            assert(ops::seen(titles@) =~= want);
        }
        let mut lines: Vec<String> = Vec::new();
        let mut i: usize = 0;
        while i < titles.len()
            invariant
                i <= titles@.len(),
                lines@.len() == i,
                forall|j: int| 0 <= j < i ==> (#[trigger] lines@[j])@ == "- "@ + titles@[j]@,
            decreases titles@.len() - i,
        {
            let mut line = "- ".to_string();
            line.append(titles[i].as_str());
            lines.push(line);
            i += 1;
        }
        proof {
            assert(lines@.map_values(|p: String| p@) =~= want.map_values(
                |t: Seq<char>| "- "@ + t,
            )) by {
                assert forall|j: int| 0 <= j < lines@.len() implies (#[trigger] lines@[j])@ == "- "@
                    + want[j] by {
                    assert(want[j] == titles@[j]@);
                }
            }
        }
        join(&lines, "\n")
    }
}

/// Where `child` first stands in the list of the first node that lists it is its place.
proof fn lemma_parent(d: doc::Nodes, child: Seq<char>, k: int, i: int)
    requires
        doc::first_lister(d, child, k),
        doc::first_at(d.map[d.order[k]].children, child, i),
    ensures
        doc::parent_of(d, child) == Some((d.order[k], i)),
{
    let c = choose|c: int| doc::first_lister(d, child, c);
    assert(doc::first_lister(d, child, c));
    if c < k {
        assert(!d.map[d.order[c]].children.contains(child));
    } else if k < c {
        assert(!d.map[d.order[k]].children.contains(child));
    }
    let ids = d.map[d.order[k]].children;
    let e = choose|e: int| doc::first_at(ids, child, e);
    assert(doc::first_at(ids, child, e));
    if e < i {
        assert(ids[e] != child);
    } else if i < e {
        assert(ids[i] != child);
    }
}

proof fn lemma_titles_add(m: Map<Seq<char>, NodeView>, a: Seq<Seq<char>>, b: Seq<Seq<char>>)
    ensures
        doc::titles(m, a + b) == doc::titles(m, a) + doc::titles(m, b),
{
    let p = |id: Seq<char>| m[id].kind is Heading;
    Seq::filter_distributes_over_add(a, b, p);
    assert(doc::titles(m, a + b) =~= doc::titles(m, a) + doc::titles(m, b));
}

proof fn lemma_titles_one(m: Map<Seq<char>, NodeView>, id: Seq<char>)
    ensures
        doc::titles(m, seq![id]) == if m[id].kind is Heading {
            seq![m[id].text]
        } else {
            Seq::<Seq<char>>::empty()
        },
{
    reveal(Seq::filter);
    let p = |id: Seq<char>| m[id].kind is Heading;
    assert(seq![id].drop_last() =~= Seq::empty());
    assert(seq![id].drop_last().filter(p) =~= Seq::empty());
    assert(doc::titles(m, seq![id]) =~= if m[id].kind is Heading {
        seq![m[id].text]
    } else {
        Seq::<Seq<char>>::empty()
    });
}

impl Default for ProseModel {
    fn default() -> (r: Self)
        ensures
            r@ == (Doc {
                nodes: Dict::empty().put("root"@, NodeView::leaf(Seq::empty())),
                root: "root"@,
                rev: 0,
                toc: None,
            }),
            r@.sound(),
    {
        Self::new()
    }
}

impl ProseModel {
    /// Replaces the text of a node and hands out the text it had.
    fn set_text(&mut self, id: &NodeId, text: String) -> (r: Option<String>)
        ensures
            match r {
                Some(was) => {
                    &&& old(self)@.nodes.has(id@)
                    &&& was@ == old(self)@.nodes.map[id@].text
                    &&& final(self)@ == (Doc {
                        nodes: old(self)@.nodes.put(
                            id@,
                            old(self)@.nodes.map[id@].with_text(text@),
                        ),
                        ..old(self)@
                    })
                },
                None => !old(self)@.nodes.has(id@) && final(self)@ == old(self)@,
            },
            tree::countable(old(self)@.nodes.map) ==> tree::countable(final(self)@.nodes.map),
    {
        let ghost before = self.nodes@;
        let _ = measure(text.as_str());
        match self.nodes.get_mut(id.0.as_str()) {
            Some(node) => {
                let mut was = text;
                std::mem::swap(&mut was, &mut node.text);
                proof {
                    lemma_countable_put(before, self.nodes@, id@);
                }
                Some(was)
            },
            None => None,
        }
    }

    /// Replaces the characters of `range` in the text of a node.
    fn set_span(&mut self, id: &NodeId, range: &CharRange, new: &str) -> (r: Result<Op, PatchError>)
        ensures
            match r {
                Ok(inverse) => doc::edit(
                    old(self)@.nodes,
                    id@,
                    OpView::SetSpan { range: *range, text: new@ },
                ) == Ok::<_, PatchErrorView>((final(self)@.nodes, inverse@)) && final(self)@ == (Doc {
                    nodes: final(self)@.nodes,
                    ..old(self)@
                }),
                Err(e) => doc::edit(
                    old(self)@.nodes,
                    id@,
                    OpView::SetSpan { range: *range, text: new@ },
                ) == Err::<(doc::Nodes, OpView), _>(e@) && final(self)@ == old(self)@,
            },
            tree::countable(old(self)@.nodes.map) ==> tree::countable(final(self)@.nodes.map),
    {
        let (next, removed) = match self.nodes.get(id.0.as_str()) {
            None => return Err(PatchError::UnknownTarget(id.clone())),
            Some(node) => {
                let slot = node.text.as_str();
                match CharIndex::byte_range(slot, range) {
                    None => return Err(PatchError::RangeOutOfBounds(*range)),
                    Some((b_start, b_end)) => {
                        let (head, _) = split_text(slot, b_start, Ghost(range.start.0 as int));
                        let (front, tail) = split_text(slot, b_end, Ghost(range.end.0 as int));
                        proof {
                            lemma_take_byte(slot@, range.start.0 as int, range.end.0 as int);
                        }
                        let (_, removed) = split_text(front, b_start, Ghost(range.start.0 as int));
                        let mut next = head.to_string();
                        next.append(new);
                        next.append(tail);
                        proof {
                            assert(removed@ =~= slot@.subrange(
                                range.start.0 as int,
                                range.end.0 as int,
                            ));
                        }
                        (next, removed.to_string())
                    },
                }
            },
        };
        let total = CharIndex::char_len(next.as_str());
        let inserted = CharIndex::char_len(new);
        proof {
            assert(range.start.0 + inserted <= total);
        }
        let inv_range = CharRange {
            start: range.start,
            end: Pos(range.start.0 + inserted),
        };
        let _ = self.set_text(id, next);
        Ok(Op::SetSpan { range: inv_range, text: removed })
    }

    /// The first of the ids that is in use or stands in the list more than once.
    fn find_clash(&self, ids: &Vec<NodeId>) -> (r: Option<NodeId>)
        ensures
            match r {
                Some(id) => doc::clash(self@.nodes, ops::seen(ids@)) == Some(id@),
                None => doc::clash(self@.nodes, ops::seen(ids@)) is None,
            },
    {
        let ghost d = self@.nodes;
        let ghost views = ops::seen(ids@);
        let mut i: usize = 0;
        while i < ids.len()
            invariant
                i <= ids@.len(),
                d == self@.nodes,
                views == ops::seen(ids@),
                forall|k: int| 0 <= k < i ==> !#[trigger] doc::clashes(d, views, k),
            decreases ids@.len() - i,
        {
            proof {
                assert(views[i as int] == ids@[i as int]@);
            }
            let mut found = self.nodes.contains_key(ids[i].0.as_str());
            let mut j: usize = 0;
            while j < ids.len()
                invariant
                    i < ids@.len(),
                    j <= ids@.len(),
                    d == self@.nodes,
                    views == ops::seen(ids@),
                    found == (d.has(views[i as int]) || exists|k: int|
                        0 <= k < j && k != i && #[trigger] views[k] == views[i as int]),
                decreases ids@.len() - j,
            {
                proof {
                    assert(views[i as int] == ids@[i as int]@ && views[j as int] == ids@[j as int]@);
                }
                if j != i && same_text(ids[j].0.as_str(), ids[i].0.as_str()) {
                    found = true;
                }
                j += 1;
            }
            if found {
                proof {
                    assert(doc::clashes(d, views, i as int));
                    assert(doc::first_clash(d, views, i as int));
                    let c = choose|c: int| doc::first_clash(d, views, c);
                    assert(c == i);
                }
                return Some(ids[i].clone());
            }
            proof {
                assert(!doc::clashes(d, views, i as int));
            }
            i += 1;
        }
        None
    }

    /// Why nothing can be put under `parent` at `index`, if so; `taken` is an id that stands in the
    /// way.
    fn check_place(&self, parent: &NodeId, index: usize, taken: Option<NodeId>) -> (r: Result<
        (),
        PatchError,
    >)
        ensures
            ({
                let t = match taken {
                    Some(id) => Some(id@),
                    None => None,
                };
                match r {
                    Ok(()) => doc::placing_error(self@.nodes, parent@, index, t) is None,
                    Err(e) => doc::placing_error(self@.nodes, parent@, index, t) == Some(e@),
                }
            }),
    {
        if !self.nodes.contains_key(parent.0.as_str()) {
            return Err(PatchError::UnknownTarget(parent.clone()));
        }
        if let Some(id) = taken {
            return Err(PatchError::DuplicateNode(id));
        }
        let len = self.child_count(parent);
        if index > len {
            return Err(PatchError::IndexOutOfBounds { parent: parent.clone(), index, len });
        }
        Ok(())
    }

    /// Deletes the subtree under `id` and hands out the op that rebuilds it.
    fn remove_node(&mut self, id: &NodeId) -> (r: Result<Op, PatchError>)
        requires
            doc::edit_ready(old(self)@.nodes, OpView::RemoveNode { id: id@ }),
        ensures
            match r {
                Ok(inverse) => doc::edit(old(self)@.nodes, Seq::empty(), OpView::RemoveNode { id: id@ })
                    == Ok::<_, PatchErrorView>((final(self)@.nodes, inverse@)) && final(self)@ == (Doc {
                    nodes: final(self)@.nodes,
                    ..old(self)@
                }),
                Err(e) => doc::edit(old(self)@.nodes, Seq::empty(), OpView::RemoveNode { id: id@ })
                    == Err::<(doc::Nodes, OpView), _>(e@) && final(self)@ == old(self)@,
            },
            tree::countable(old(self)@.nodes.map) ==> tree::countable(final(self)@.nodes.map),
    {
        let ghost before = self.nodes@;
        if !self.nodes.contains_key(id.0.as_str()) {
            return Err(PatchError::UnknownTarget(id.clone()));
        }
        let (parent, index) = match self.find_parent(id) {
            Some(place) => place,
            None => return Err(PatchError::NotRemovable(id.clone())),
        };
        let ghost fuel = choose|f: nat| doc::whole(self@.nodes.map, id@, f);
        let snapshot = self.snapshot(id, Ghost(fuel));
        if let Some(node) = self.nodes.get_mut(parent.0.as_str()) {
            let ghost kids = node.children@;
            let _ = node.children.remove(index);
            proof {
                assert(ops::seen(node.children@) =~= ops::seen(kids).remove(index as int));
            }
        }
        proof {
            lemma_countable_put(before, self.nodes@, parent@);
        }
        self.remove_subtree(&snapshot);
        Ok(Op::CreateNode { parent, index, snapshot })
    }
}

/// A table in which one node was set stays countable if that node is.
proof fn lemma_countable_put(d: doc::Nodes, n: doc::Nodes, id: Seq<char>)
    requires
        n == d.put(id, n.map[id]),
    ensures
        tree::countable(d.map) && n.map[id].text.len() <= usize::MAX && n.map[id].children.len()
            <= usize::MAX ==> tree::countable(n.map),
{
    if tree::countable(d.map) && n.map[id].text.len() <= usize::MAX && n.map[id].children.len()
        <= usize::MAX {
        assert forall|k: Seq<char>| #[trigger] n.map.dom().contains(k) implies n.map[k].text.len()
            <= usize::MAX && n.map[k].children.len() <= usize::MAX by {
            if k != id {
                assert(d.map.dom().contains(k));
            }
        }
    }
}

/// A cut further on does not move an earlier one.
proof fn lemma_take_byte(s: Seq<char>, a: int, b: int)
    requires
        0 <= a <= b <= s.len(),
    ensures
        crate::offsets::byte_at(s.take(b), a) == crate::offsets::byte_at(s, a),
        s.take(b).take(a) == s.take(a),
{
    assert(s.take(b).take(a) =~= s.take(a));
}

impl DocumentModel for ProseModel {
    open spec fn ready(state: Doc, target: Seq<char>, op: OpView) -> bool {
        state.op_ready(target, op)
    }

    open spec fn outcome(state: Doc, target: Seq<char>, op: OpView) -> Result<
        (Doc, OpView),
        PatchErrorView,
    > {
        state.applied(target, op)
    }

    open spec fn derivable(state: Doc, authored: Seq<PatchView>) -> bool {
        state.toc_due(authored) ==> doc::walkable(state.nodes.map, state.root)
    }

    open spec fn derived(state: Doc, authored: Seq<PatchView>) -> Seq<PatchView> {
        state.derived_patches(authored)
    }

    open spec fn text_in(state: Doc, id: Seq<char>) -> Option<Seq<char>> {
        if state.nodes.has(id) {
            Some(state.nodes.map[id].text)
        } else {
            None
        }
    }

    fn root_kind(&self) -> (r: &'static str)
        ensures
            r@ == "prose"@,
    {
        "prose"
    }

    fn get_text(&self, id: &NodeId) -> (r: Option<&str>) {
        match self.nodes.get(id.0.as_str()) {
            Some(n) => Some(n.text.as_str()),
            None => None,
        }
    }

    /// A tree stays a tree.
    fn apply_op(&mut self, target: &Target, op: &Op) -> (r: Result<Op, PatchError>)
        ensures
            old(self)@.sound() ==> final(self)@.sound(),
    {
        let ghost before = self@;
        proof {
            if before.sound() {
                laws::law_ops_keep_the_tree(before, target@, op@);
            }
        }
        let node = match target.primary_node() {
            Some(n) => n,
            None => return Err(PatchError::UnknownTarget(NodeId("<none>".to_string()))),
        };
        let inverse = match op {
            Op::SetMarkdown { md } => match self.set_text(node, md.clone()) {
                Some(was) => Op::SetMarkdown { md: was },
                None => return Err(PatchError::UnknownTarget(node.clone())),
            },
            Op::SetSpan { range, text } => match self.set_span(node, range, text.as_str()) {
                Ok(inverse) => inverse,
                Err(e) => return Err(e),
            },
            Op::SetKind { kind } => match self.nodes.get_mut(node.0.as_str()) {
                Some(data) => {
                    let was = data.kind;
                    data.kind = *kind;
                    proof {
                        lemma_countable_put(before.nodes, self.nodes@, node@);
                    }
                    Op::SetKind { kind: was }
                },
                None => return Err(PatchError::UnknownTarget(node.clone())),
            },
            Op::InsertSection { parent, index, id, text } => {
                let taken = if self.nodes.contains_key(id.0.as_str()) {
                    Some(id.clone())
                } else {
                    None
                };
                if let Err(e) = self.check_place(parent, *index, taken) {
                    return Err(e);
                }
                let data = NodeData {
                    kind: NodeKind::Paragraph,
                    text: text.clone(),
                    children: Vec::new(),
                };
                proof {
                    assert(data@ =~= NodeView::leaf(text@));
                }
                let _ = measure(text.as_str());
                self.nodes.insert(id.0.clone(), data);
                proof {
                    lemma_countable_put(before.nodes, self.nodes@, id@);
                }
                self.attach_child(parent.clone(), *index, id.clone());
                Op::RemoveNode { id: id.clone() }
            },
            Op::RemoveNode { id } => match self.remove_node(id) {
                Ok(inverse) => inverse,
                Err(e) => return Err(e),
            },
            Op::CreateNode { parent, index, snapshot } => {
                let mut ids: Vec<NodeId> = Vec::new();
                list_ids(snapshot, &mut ids);
                proof {
                    assert(ops::seen(ids@) =~= doc::snap_ids(snapshot@));
                }
                let taken = self.find_clash(&ids);
                if let Err(e) = self.check_place(parent, *index, taken) {
                    return Err(e);
                }
                self.restore_subtree(snapshot);
                proof {
                    tree::lemma_clash(before.nodes, snapshot@);
                    tree::lemma_graft_frame(before.nodes, snapshot@, parent@);
                }
                self.attach_child(parent.clone(), *index, snapshot.id.clone());
                Op::RemoveNode { id: snapshot.id.clone() }
            },
        };
        self.rev = self.rev + 1;
        Ok(inverse)
    }

    fn derive(&self, authored: &[Patch]) -> (r: Vec<Patch>) {
        let ghost doc = self@;
        let ghost ps = ops::seen(authored@);
        let ghost touches = |p: PatchView|
            doc.nodes.has(p.target) && doc.nodes.map[p.target].kind is Heading;
        let toc_id: NodeId = match &self.toc {
            Some(t) if self.nodes.contains_key(t.0.as_str()) => t.clone(),
            _ => {
                let none: Vec<Patch> = Vec::new();
                proof {
                    assert(ops::seen(none@) =~= Seq::empty());
                }
                return none;
            },
        };
        let mut heading_deps: Vec<PatchId> = Vec::new();
        proof {
            reveal(Seq::filter);
            assert(ps.take(0) =~= Seq::empty());
            assert(ps.take(0).filter(touches) =~= Seq::empty());
        }
        let mut i: usize = 0;
        while i < authored.len()
            invariant
                i <= authored@.len(),
                doc == self@,
                ps == ops::seen(authored@),
                touches == (|p: PatchView|
                    doc.nodes.has(p.target) && doc.nodes.map[p.target].kind is Heading),
                ops::seen(heading_deps@) == ps.take(i as int).filter(touches).map_values(
                    |p: PatchView| p.id,
                ),
            decreases authored@.len() - i,
        {
            let p = &authored[i];
            let ghost was = ops::seen(heading_deps@);
            let heading = match p.target.primary_node() {
                Some(n) => match self.node_kind(n) {
                    Some(NodeKind::Heading { level: _ }) => true,
                    _ => false,
                },
                None => false,
            };
            proof {
                reveal(Seq::filter);
                assert(ps.take(i + 1).drop_last() =~= ps.take(i as int));
                assert(ps.take(i + 1).last() == p@);
                assert(heading == touches(p@));
            }
            if heading {
                heading_deps.push(p.id.clone());
            }
            proof {
                let kept = ps.take(i as int).filter(touches);
                if heading {
                    assert(ps.take(i + 1).filter(touches) == kept.push(p@));
                    assert(kept.push(p@).map_values(|p: PatchView| p.id) =~= was.push(p@.id));
                    assert(ops::seen(heading_deps@) =~= was.push(p@.id));
                } else {
                    assert(ps.take(i + 1).filter(touches) == kept);
                }
                assert(ops::seen(heading_deps@) =~= ps.take(i + 1).filter(touches).map_values(
                    |p: PatchView| p.id,
                ));
            }
            i += 1;
        }
        proof {
            assert(ps.take(i as int) =~= ps);
        }
        let mut out: Vec<Patch> = Vec::new();
        if heading_deps.len() == 0 {
            proof {
                assert(ops::seen(out@) =~= Seq::empty());
            }
            return out;
        }
        let toc_text = self.build_toc();
        let from = heading_deps[0].clone();
        out.push(
            Patch {
                id: PatchId("derive:toc".to_string()),
                source: PatchSource::Derived { from },
                target: Target::Node(toc_id),
                op: Op::SetMarkdown { md: toc_text },
                depends_on: heading_deps,
            },
        );
        proof {
            assert(ops::seen(out@) =~= doc.derived_patches(ps));
        }
        out
    }
}

/// Adds the ids of a snapshot to a list, a node before its children.
fn list_ids(snap: &NodeSnapshot, out: &mut Vec<NodeId>)
    ensures
        ops::seen(final(out)@) == ops::seen(old(out)@) + doc::snap_ids(snap@),
    decreases *snap,
{
    let ghost start = ops::seen(out@);
    out.push(snap.id.clone());
    let ghost mut listed = doc::snap_ids_children(snap@, 0);
    proof {
        assert(ops::seen(out@) =~= start + (seq![snap@.id] + listed));
    }
    let mut i: usize = 0;
    while i < snap.children.len()
        invariant
            i <= snap.children@.len(),
            listed == doc::snap_ids_children(snap@, i as nat),
            ops::seen(out@) == start + (seq![snap@.id] + listed),
        decreases snap.children@.len() - i,
    {
        proof {
            assert(snap@.children[i as int] == snap.children@[i as int]@);
        }
        list_ids(&snap.children[i], out);
        let ghost more = doc::snap_ids(snap@.children[i as int]);
        proof {
            assert(start + (seq![snap@.id] + listed) + more =~= start + (seq![snap@.id] + (listed
                + more)));
            listed = listed + more;
        }
        i += 1;
    }
}

} // verus!
