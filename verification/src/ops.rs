//! The typed edit vocabulary: node identities and kinds, ops with their payloads, and patches.
use crate::offsets::CharRange;
use vstd::prelude::*;

verus! {

/// The views of the items of a sequence.
pub open spec fn seen<T: View>(items: Seq<T>) -> Seq<T::V> {
    Seq::new(items.len(), |i: int| items[i]@)
}

// ---------------------------------------------------------------- identity

/// Identity of a document node.
#[derive(PartialEq, Eq, Hash, Debug)]
pub struct NodeId(pub String);

impl View for NodeId {
    type V = Seq<char>;

    open spec fn view(&self) -> Seq<char> {
        self.0@
    }
}

impl Clone for NodeId {
    fn clone(&self) -> (r: Self)
        ensures
            r == *self,
    {
        NodeId(self.0.clone())
    }
}

/// Identity of a patch.
#[derive(PartialEq, Eq, Hash, Debug)]
pub struct PatchId(pub String);

impl View for PatchId {
    type V = Seq<char>;

    open spec fn view(&self) -> Seq<char> {
        self.0@
    }
}

impl Clone for PatchId {
    fn clone(&self) -> (r: Self)
        ensures
            r == *self,
    {
        PatchId(self.0.clone())
    }
}

/// Copies a list of patch ids.
pub fn clone_patch_ids(ids: &Vec<PatchId>) -> (out: Vec<PatchId>)
    ensures
        seen(out@) == seen(ids@),
{
    let mut out: Vec<PatchId> = Vec::new();
    let mut i: usize = 0;
    while i < ids.len()
        invariant
            i <= ids@.len(),
            out@ == ids@.take(i as int),
        decreases ids@.len() - i,
    {
        out.push(ids[i].clone());
        i += 1;
    }
    proof {
        assert(ids@.take(i as int) =~= ids@);
    }
    out
}

// ---------------------------------------------------------------- node kind

/// The block type of a node. It is data of its own: markup characters inside the text mean
/// nothing.
#[derive(Clone, Copy, PartialEq, Eq, Debug, Structural)]
pub enum NodeKind {
    Paragraph,
    Heading { level: usize },
    /// Content that has no structure here (a table, a picture). Its text is a description and
    /// is read-only: the renderer gives it no source span.
    Opaque,
}

impl Default for NodeKind {
    fn default() -> (r: Self)
        ensures
            r == NodeKind::Paragraph,
    {
        NodeKind::Paragraph
    }
}

// ---------------------------------------------------------------- snapshot

/// A lossless picture of a subtree: the node itself and, recursively, all its descendants.
#[derive(Debug, PartialEq)]
pub struct NodeSnapshot {
    pub id: NodeId,
    pub kind: NodeKind,
    pub text: String,
    pub children: Vec<NodeSnapshot>,
}

/// What a `NodeSnapshot` holds.
#[verifier::ext_equal]
pub struct SnapView {
    pub id: Seq<char>,
    pub kind: NodeKind,
    pub text: Seq<char>,
    pub children: Seq<SnapView>,
}

/// The contents of a snapshot, all the way down.
pub open spec fn snap_view(s: NodeSnapshot) -> SnapView
    decreases s,
{
    SnapView {
        id: s.id@,
        kind: s.kind,
        text: s.text@,
        children: Seq::new(
            s.children@.len(),
            |i: int|
                if 0 <= i < s.children@.len() {
                    snap_view(s.children@[i])
                } else {
                    arbitrary()
                },
        ),
    }
}

impl View for NodeSnapshot {
    type V = SnapView;

    open spec fn view(&self) -> SnapView {
        snap_view(*self)
    }
}

impl SnapView {
    /// The ids of the direct children.
    pub open spec fn child_ids(self) -> Seq<Seq<char>> {
        Seq::new(self.children.len(), |i: int| self.children[i].id)
    }
}

impl Clone for NodeSnapshot {
    fn clone(&self) -> (r: Self)
        ensures
            r@ == self@,
        decreases *self,
    {
        let mut children: Vec<NodeSnapshot> = Vec::new();
        let n = self.children.len();
        let mut i: usize = 0;
        while i < n
            invariant
                i <= n,
                n == self.children@.len(),
                children@.len() == i,
                forall|j: int| 0 <= j < i ==> snap_view(#[trigger] children@[j]) == snap_view(self.children@[j]),
            decreases n - i,
        {
            let c = self.children[i].clone();
            children.push(c);
            i += 1;
        }
        let r = NodeSnapshot { id: self.id.clone(), kind: self.kind, text: self.text.clone(), children };
        proof {
            assert(r@.children =~= self@.children);
        }
        r
    }
}

// ---------------------------------------------------------------- op

/// One edit of a document.
#[derive(Debug, PartialEq)]
pub enum Op {
    /// Replaces the whole text of the target.
    SetMarkdown { md: String },
    /// Replaces the characters of `range` by `text`. The inverse is a `SetSpan` too; its range
    /// has the length of the inserted text.
    SetSpan { range: CharRange, text: String },
    /// Sets the block type of the target.
    SetKind { kind: NodeKind },
    /// Inserts a new leaf as child number `index` of `parent`. Inverse: `RemoveNode`.
    InsertSection { parent: NodeId, index: usize, id: NodeId, text: String },
    /// Deletes a node with its whole subtree. Inverse: `CreateNode`, whose snapshot holds all of it.
    RemoveNode { id: NodeId },
    /// Rebuilds a subtree as child number `index` of `parent`. Inverse: `RemoveNode`.
    CreateNode { parent: NodeId, index: usize, snapshot: NodeSnapshot },
}

/// What an `Op` holds.
#[verifier::ext_equal]
pub enum OpView {
    SetMarkdown { md: Seq<char> },
    SetSpan { range: CharRange, text: Seq<char> },
    SetKind { kind: NodeKind },
    InsertSection { parent: Seq<char>, index: usize, id: Seq<char>, text: Seq<char> },
    RemoveNode { id: Seq<char> },
    CreateNode { parent: Seq<char>, index: usize, snapshot: SnapView },
}

impl View for Op {
    type V = OpView;

    open spec fn view(&self) -> OpView {
        match *self {
            Op::SetMarkdown { md } => OpView::SetMarkdown { md: md@ },
            Op::SetSpan { range, text } => OpView::SetSpan { range, text: text@ },
            Op::SetKind { kind } => OpView::SetKind { kind },
            Op::InsertSection { parent, index, id, text } => OpView::InsertSection {
                parent: parent@,
                index,
                id: id@,
                text: text@,
            },
            Op::RemoveNode { id } => OpView::RemoveNode { id: id@ },
            Op::CreateNode { parent, index, snapshot } => OpView::CreateNode {
                parent: parent@,
                index,
                snapshot: snapshot@,
            },
        }
    }
}

impl Clone for Op {
    fn clone(&self) -> (r: Self)
        ensures
            r@ == self@,
    {
        match self {
            Op::SetMarkdown { md } => Op::SetMarkdown { md: md.clone() },
            Op::SetSpan { range, text } => Op::SetSpan { range: *range, text: text.clone() },
            Op::SetKind { kind } => Op::SetKind { kind: *kind },
            Op::InsertSection { parent, index, id, text } => Op::InsertSection {
                parent: parent.clone(),
                index: *index,
                id: id.clone(),
                text: text.clone(),
            },
            Op::RemoveNode { id } => Op::RemoveNode { id: id.clone() },
            Op::CreateNode { parent, index, snapshot } => Op::CreateNode {
                parent: parent.clone(),
                index: *index,
                snapshot: snapshot.clone(),
            },
        }
    }
}

// ---------------------------------------------------------------- target

/// What a patch is aimed at: a single node. Its view is the id of that node.
#[derive(Debug, PartialEq)]
pub enum Target {
    Node(NodeId),
}

impl View for Target {
    type V = Seq<char>;

    open spec fn view(&self) -> Seq<char> {
        match *self {
            Target::Node(n) => n@,
        }
    }
}

impl Clone for Target {
    fn clone(&self) -> (r: Self)
        ensures
            r@ == self@,
    {
        match self {
            Target::Node(n) => Target::Node(n.clone()),
        }
    }
}

impl Target {
    /// The node that text and kind ops work on.
    pub fn primary_node(&self) -> (r: Option<&NodeId>)
        ensures
            r matches Some(n) && n@ == self@ && *self == Target::Node(*n),
    {
        match self {
            Target::Node(n) => Some(n),
        }
    }
}

// ---------------------------------------------------------------- patch

/// Where a patch comes from.
#[derive(Debug, PartialEq)]
pub enum PatchSource {
    Authored,
    Derived { from: PatchId },
    /// Produced by an AI. `commit` refuses it until it is reviewed.
    Ai { reviewed: bool },
}

/// What a `PatchSource` holds.
#[verifier::ext_equal]
pub enum SourceView {
    Authored,
    Derived { from: Seq<char> },
    Ai { reviewed: bool },
}

impl View for PatchSource {
    type V = SourceView;

    open spec fn view(&self) -> SourceView {
        match *self {
            PatchSource::Authored => SourceView::Authored,
            PatchSource::Derived { from } => SourceView::Derived { from: from@ },
            PatchSource::Ai { reviewed } => SourceView::Ai { reviewed },
        }
    }
}

impl Clone for PatchSource {
    fn clone(&self) -> (r: Self)
        ensures
            r@ == self@,
    {
        match self {
            PatchSource::Authored => PatchSource::Authored,
            PatchSource::Derived { from } => PatchSource::Derived { from: from.clone() },
            PatchSource::Ai { reviewed } => PatchSource::Ai { reviewed: *reviewed },
        }
    }
}

/// One op aimed at one target, with its origin and the patches it depends on.
#[derive(Debug)]
pub struct Patch {
    pub id: PatchId,
    pub source: PatchSource,
    pub target: Target,
    pub op: Op,
    /// Ids of the patches of the same set that have to be applied before this one.
    pub depends_on: Vec<PatchId>,
}

/// What a `Patch` holds.
#[verifier::ext_equal]
pub struct PatchView {
    pub id: Seq<char>,
    pub source: SourceView,
    pub target: Seq<char>,
    pub op: OpView,
    pub depends_on: Seq<Seq<char>>,
}

impl View for Patch {
    type V = PatchView;

    open spec fn view(&self) -> PatchView {
        PatchView {
            id: self.id@,
            source: self.source@,
            target: self.target@,
            op: self.op@,
            depends_on: seen(self.depends_on@),
        }
    }
}

impl PatchView {
    /// An AI patch that nobody has reviewed.
    pub open spec fn unreviewed(self) -> bool {
        self.source == SourceView::Ai { reviewed: false }
    }

    /// The same patch after review: an AI patch counts as reviewed, any other is unchanged.
    pub open spec fn reviewed(self) -> PatchView {
        if self.source is Ai {
            PatchView { source: SourceView::Ai { reviewed: true }, ..self }
        } else {
            self
        }
    }
}

impl Clone for Patch {
    fn clone(&self) -> (r: Self)
        ensures
            r@ == self@,
    {
        Patch {
            id: self.id.clone(),
            source: self.source.clone(),
            target: self.target.clone(),
            op: self.op.clone(),
            depends_on: clone_patch_ids(&self.depends_on),
        }
    }
}

impl Patch {
    /// A patch written by a person.
    pub fn authored(id: &str, target: Target, op: Op) -> (r: Self)
        ensures
            r@ == (PatchView {
                id: id@,
                source: SourceView::Authored,
                target: target@,
                op: op@,
                depends_on: Seq::empty(),
            }),
    {
        let r = Patch {
            id: PatchId(id.to_string()),
            source: PatchSource::Authored,
            target,
            op,
            depends_on: Vec::new(),
        };
        proof {
            assert(r@.depends_on =~= Seq::empty());
        }
        r
    }

    /// A patch proposed by an AI. It is born unreviewed.
    pub fn ai(id: &str, target: Target, op: Op) -> (r: Self)
        ensures
            r@ == (PatchView {
                id: id@,
                source: SourceView::Ai { reviewed: false },
                target: target@,
                op: op@,
                depends_on: Seq::empty(),
            }),
    {
        let r = Patch {
            id: PatchId(id.to_string()),
            source: PatchSource::Ai { reviewed: false },
            target,
            op,
            depends_on: Vec::new(),
        };
        proof {
            assert(r@.depends_on =~= Seq::empty());
        }
        r
    }

    /// The same patch with its dependencies replaced.
    pub fn with_deps(self, deps: &[&str]) -> (r: Self)
        ensures
            r@ == (PatchView { depends_on: seen(deps@), ..self@ }),
    {
        let mut ids: Vec<PatchId> = Vec::new();
        let mut i: usize = 0;
        while i < deps.len()
            invariant
                i <= deps@.len(),
                ids@.len() == i,
                forall|j: int| 0 <= j < i ==> (#[trigger] ids@[j])@ == deps@[j]@,
            decreases deps@.len() - i,
        {
            ids.push(PatchId(deps[i].to_string()));
            i += 1;
        }
        let r = Patch { id: self.id, source: self.source, target: self.target, op: self.op, depends_on: ids };
        proof {
            assert(r@.depends_on =~= seen(deps@));
        }
        r
    }
}

} // verus!
