//! Word documents: the neutral blocks that a backend reads, and their way into a prose model.
use crate::commit::{DocumentModel, PatchErrorView};
use crate::describe;
use crate::doc;
use crate::doc::{Doc, NodeView};
use crate::ops;
use crate::ops::{NodeId, NodeKind, Op, OpView, Target};
use crate::prose::ProseModel;
use crate::text;
use crate::text::count_text;
use crate::tree;
use vstd::prelude::*;
use vstd::string::*;

verus! {

/// The characters of an optional text.
pub open spec fn opt_text(t: Option<String>) -> Option<Seq<char>> {
    match t {
        Some(s) => Some(s@),
        None => None,
    }
}

/// The bytes of an optional picture.
pub open spec fn opt_bytes(b: Option<Vec<u8>>) -> Option<Seq<u8>> {
    match b {
        Some(v) => Some(v@),
        None => None,
    }
}

fn clone_opt_text(t: &Option<String>) -> (r: Option<String>)
    ensures
        opt_text(r) == opt_text(*t),
{
    match t {
        Some(s) => Some(s.clone()),
        None => None,
    }
}

/// Copies bytes.
pub fn clone_bytes(bytes: &Vec<u8>) -> (out: Vec<u8>)
    ensures
        out@ == bytes@,
{
    let mut out: Vec<u8> = Vec::new();
    let mut i: usize = 0;
    while i < bytes.len()
        invariant
            i <= bytes@.len(),
            out@ == bytes@.take(i as int),
        decreases bytes@.len() - i,
    {
        out.push(bytes[i]);
        i += 1;
    }
    proof {
        assert(bytes@.take(i as int) =~= bytes@);
    }
    out
}

/// One block of a Word document, as a backend reads it. `para_id` is the stable identity of the
/// paragraph in the file; what is written back is aimed at it, never at a position.
#[derive(Debug, PartialEq)]
pub enum DocxBlock {
    Heading { level: usize, text: String, para_id: Option<String> },
    Paragraph { text: String, para_id: Option<String> },
    /// Something that has no structure here (a table, a picture): kept as it is, never dropped.
    /// A picture that is a paragraph of its own has a `para_id`; `image` holds its bytes where they
    /// are known; `anchor` is the path of an element such as a table, for inserting after it.
    Unstructured {
        kind: String,
        raw: String,
        para_id: Option<String>,
        image: Option<Vec<u8>>,
        anchor: Option<String>,
    },
}

/// What a `DocxBlock` holds.
#[verifier::ext_equal]
pub enum BlockView {
    Heading { level: usize, text: Seq<char>, para_id: Option<Seq<char>> },
    Paragraph { text: Seq<char>, para_id: Option<Seq<char>> },
    Unstructured {
        kind: Seq<char>,
        raw: Seq<char>,
        para_id: Option<Seq<char>>,
        image: Option<Seq<u8>>,
        anchor: Option<Seq<char>>,
    },
}

impl View for DocxBlock {
    type V = BlockView;

    open spec fn view(&self) -> BlockView {
        match *self {
            DocxBlock::Heading { level, text, para_id } => BlockView::Heading {
                level,
                text: text@,
                para_id: opt_text(para_id),
            },
            DocxBlock::Paragraph { text, para_id } => BlockView::Paragraph {
                text: text@,
                para_id: opt_text(para_id),
            },
            DocxBlock::Unstructured { kind, raw, para_id, image, anchor } => BlockView::Unstructured {
                kind: kind@,
                raw: raw@,
                para_id: opt_text(para_id),
                image: opt_bytes(image),
                anchor: opt_text(anchor),
            },
        }
    }
}

impl BlockView {
    /// The identity of the block.
    pub open spec fn identity(self) -> Option<Seq<char>> {
        match self {
            BlockView::Heading { level, text, para_id } => para_id,
            BlockView::Paragraph { text, para_id } => para_id,
            BlockView::Unstructured { kind, raw, para_id, image, anchor } => para_id,
        }
    }

    /// The path by which something is inserted after the block: `p[@paraId=..]` for a block with
    /// an identity, else the path of the element where it is known.
    pub open spec fn after_path(self) -> Option<Seq<char>> {
        match self.identity() {
            Some(id) => Some("p[@paraId="@ + id + "]"@),
            None => match self {
                BlockView::Unstructured { kind, raw, para_id, image, anchor } => anchor,
                _ => None,
            },
        }
    }

    /// The picture of the block.
    pub open spec fn picture(self) -> Option<Seq<u8>> {
        match self {
            BlockView::Unstructured { kind, raw, para_id, image, anchor } => image,
            _ => None,
        }
    }

    /// The text of the node that the block becomes.
    pub open spec fn node_text(self) -> Seq<char> {
        match self {
            BlockView::Heading { level, text, para_id } => text,
            BlockView::Paragraph { text, para_id } => text,
            BlockView::Unstructured { kind, raw, para_id, image, anchor } => raw,
        }
    }

    /// The kind of the node that the block becomes.
    pub open spec fn node_kind(self) -> NodeKind {
        match self {
            BlockView::Heading { level, text, para_id } => NodeKind::Heading { level },
            BlockView::Paragraph { text, para_id } => NodeKind::Paragraph,
            BlockView::Unstructured { kind, raw, para_id, image, anchor } => NodeKind::Opaque,
        }
    }
}

impl Clone for DocxBlock {
    fn clone(&self) -> (r: Self)
        ensures
            r@ == self@,
    {
        match self {
            DocxBlock::Heading { level, text, para_id } => DocxBlock::Heading {
                level: *level,
                text: text.clone(),
                para_id: clone_opt_text(para_id),
            },
            DocxBlock::Paragraph { text, para_id } => DocxBlock::Paragraph {
                text: text.clone(),
                para_id: clone_opt_text(para_id),
            },
            DocxBlock::Unstructured { kind, raw, para_id, image, anchor } => DocxBlock::Unstructured {
                kind: kind.clone(),
                raw: raw.clone(),
                para_id: clone_opt_text(para_id),
                image: match image {
                    Some(b) => Some(clone_bytes(b)),
                    None => None,
                },
                anchor: clone_opt_text(anchor),
            },
        }
    }
}

impl DocxBlock {
    /// The stable identity of the block.
    pub fn para_id(&self) -> (r: Option<&str>)
        ensures
            match r {
                Some(id) => self@.identity() == Some(id@),
                None => self@.identity() is None,
            },
    {
        let id = match self {
            DocxBlock::Heading { level: _, text: _, para_id } => para_id,
            DocxBlock::Paragraph { text: _, para_id } => para_id,
            DocxBlock::Unstructured { kind: _, raw: _, para_id, image: _, anchor: _ } => para_id,
        };
        match id {
            Some(s) => Some(s.as_str()),
            None => None,
        }
    }

    /// The path by which something is inserted after the block.
    pub fn body_anchor(&self) -> (r: Option<String>)
        ensures
            opt_text(r) == self@.after_path(),
    {
        match self.para_id() {
            Some(id) => {
                let mut path = "p[@paraId=".to_string();
                path.append(id);
                path.append("]");
                Some(path)
            },
            None => match self {
                DocxBlock::Unstructured { kind: _, raw: _, para_id: _, image: _, anchor } =>
                clone_opt_text(anchor),
                _ => None,
            },
        }
    }
}

/// Copies a list of blocks.
pub fn clone_blocks(blocks: &Vec<DocxBlock>) -> (out: Vec<DocxBlock>)
    ensures
        ops::seen(out@) == ops::seen(blocks@),
{
    let mut out: Vec<DocxBlock> = Vec::new();
    let mut i: usize = 0;
    while i < blocks.len()
        invariant
            i <= blocks@.len(),
            out@.len() == i,
            forall|j: int| 0 <= j < i ==> (#[trigger] out@[j])@ == blocks@[j]@,
        decreases blocks@.len() - i,
    {
        out.push(blocks[i].clone());
        i += 1;
    }
    proof {
        assert(ops::seen(out@) =~= ops::seen(blocks@));
    }
    out
}

/// Where blocks come from: reads the file at a path.
pub trait DocxBackend {
    fn read_blocks(&self, path: &str) -> Result<Vec<DocxBlock>, String>;
}

/// A backend that plays back the blocks that it holds, whatever the path.
pub struct FakeBackend {
    pub blocks: Vec<DocxBlock>,
}

impl FakeBackend {
    pub fn new(blocks: Vec<DocxBlock>) -> (r: Self)
        ensures
            r.blocks == blocks,
    {
        FakeBackend { blocks }
    }
}

impl DocxBackend for FakeBackend {
    fn read_blocks(&self, path: &str) -> (r: Result<Vec<DocxBlock>, String>)
        ensures
            r matches Ok(blocks) && ops::seen(blocks@) == ops::seen(self.blocks@),
    {
        Ok(clone_blocks(&self.blocks))
    }
}

/// The backend that runs the `officecli` program.
pub struct OfficeCliBackend {
    pub program: String,
}

impl OfficeCliBackend {
    /// With the program name `officecli`.
    pub fn new() -> (r: Self)
        ensures
            r.program@ == "officecli"@,
    {
        OfficeCliBackend { program: "officecli".to_string() }
    }

    /// With another program.
    pub fn with_program(program: String) -> (r: Self)
        ensures
            r.program == program,
    {
        OfficeCliBackend { program }
    }
}

impl Default for OfficeCliBackend {
    fn default() -> (r: Self)
        ensures
            r.program@ == "officecli"@,
    {
        Self::new()
    }
}

// ---------------------------------------------------------------- import

/// The id of the node of block number `n`.
pub open spec fn docx_id(n: nat) -> Seq<char> {
    "docx:"@ + text::decimal(n)
}

/// The ids of `len` nodes, counted from `base`.
pub open spec fn docx_ids(base: nat, len: nat) -> Seq<Seq<char>> {
    Seq::new(len, |i: int| docx_id((base + i) as nat))
}

/// The number of children of the root.
pub open spec fn root_children(doc: Doc) -> nat {
    if doc.nodes.has(doc.root) {
        doc.nodes.map[doc.root].children.len()
    } else {
        0
    }
}

/// The op that enters block number `i` as child number `base + i` of the root.
pub open spec fn insert_op(doc: Doc, block: BlockView, base: nat, i: int) -> OpView {
    OpView::InsertSection {
        parent: doc.root,
        index: (base + i) as usize,
        id: docx_id((base + i) as nat),
        text: block.node_text(),
    }
}

/// Imports the blocks from number `i` on: the document reached, and the message of the error that
/// stopped it, if any.
pub open spec fn import_from(doc: Doc, blocks: Seq<BlockView>, base: nat, i: int) -> (
    Doc,
    Option<Seq<char>>,
)
    decreases blocks.len() - i,
{
    if i < 0 || i >= blocks.len() {
        (doc, None)
    } else {
        match doc.applied(doc.root, insert_op(doc, blocks[i], base, i)) {
            Err(e) => (
                doc,
                Some(
                    "import block "@ + text::decimal(i as nat) + ": "@
                        + describe::patch_error_shown(e),
                ),
            ),
            Ok((inserted, _)) => if blocks[i].node_kind() is Paragraph {
                import_from(inserted, blocks, base, i + 1)
            } else {
                match inserted.applied(
                    docx_id((base + i) as nat),
                    OpView::SetKind { kind: blocks[i].node_kind() },
                ) {
                    Err(e) => (
                        inserted,
                        Some(
                            "import block "@ + text::decimal(i as nat) + " setkind: "@
                                + describe::patch_error_shown(e),
                        ),
                    ),
                    Ok((done, _)) => import_from(done, blocks, base, i + 1),
                }
            },
        }
    }
}

/// There are numbers for `len` more blocks: child indices and revisions.
pub open spec fn import_fits(doc: Doc, len: nat) -> bool {
    &&& root_children(doc) + len <= usize::MAX
    &&& doc.rev + 2 * len <= u64::MAX
}

/// The text of a block.
fn block_to_text(block: &DocxBlock) -> (r: String)
    ensures
        r@ == block@.node_text(),
{
    match block {
        DocxBlock::Heading { level: _, text, para_id: _ } => text.clone(),
        DocxBlock::Paragraph { text, para_id: _ } => text.clone(),
        DocxBlock::Unstructured { kind: _, raw, para_id: _, image: _, anchor: _ } => raw.clone(),
    }
}

fn import_error(i: usize, stage: &str, shown: &str) -> (out: String)
    ensures
        out@ == "import block "@ + text::decimal(i as nat) + stage@ + shown@,
{
    let mut out = "import block ".to_string();
    out.append(count_text(i).as_str());
    out.append(stage);
    out.append(shown);
    out
}

/// Enters blocks as children of the root, after those that are there, one node for each block:
/// first the text, then the kind where it is not a paragraph. Returns the ids in document order.
/// When an op fails the blocks before it stay.
pub fn import_blocks(model: &mut ProseModel, blocks: &[DocxBlock]) -> (r: Result<
    Vec<NodeId>,
    String,
>)
    requires
        import_fits(old(model)@, blocks@.len()),
    ensures
        ({
            let base = root_children(old(model)@);
            let (state, failed) = import_from(old(model)@, ops::seen(blocks@), base, 0);
            &&& final(model)@ == state
            &&& match r {
                Ok(ids) => failed is None && ops::seen(ids@) == docx_ids(base, blocks@.len()),
                Err(e) => failed == Some(e@),
            }
        }),
        old(model)@.sound() ==> final(model)@.sound(),
{
    let root = model.root().clone();
    let base: usize = match model.children(&root) {
        Some(c) => c.len(),
        None => 0,
    };
    let ghost views = ops::seen(blocks@);
    let ghost start = model@;
    let mut ids: Vec<NodeId> = Vec::new();
    let mut i: usize = 0;
    while i < blocks.len()
        invariant
            i <= blocks@.len(),
            views == ops::seen(blocks@),
            start == old(model)@,
            base == root_children(start),
            base + blocks@.len() <= usize::MAX,
            start.sound() ==> model@.sound(),
            root@ == start.root,
            model@.root == start.root,
            model@.rev + 2 * (blocks@.len() - i) <= u64::MAX,
            import_from(start, views, base as nat, 0) == import_from(
                model@,
                views,
                base as nat,
                i as int,
            ),
            ids@.len() == i,
            forall|j: int| 0 <= j < i ==> (#[trigger] ids@[j])@ == docx_id((base + j) as nat),
        decreases blocks@.len() - i,
    {
        let block = &blocks[i];
        proof {
            assert(views[i as int] == block@);
        }
        let mut name = "docx:".to_string();
        name.append(count_text(base + i).as_str());
        let id = NodeId(name);
        let text = block_to_text(block);
        let insert = Op::InsertSection {
            parent: root.clone(),
            index: base + i,
            id: id.clone(),
            text,
        };
        if let Err(e) = model.apply_op(&Target::Node(root.clone()), &insert) {
            return Err(import_error(i, ": ", e.shown().as_str()));
        }
        let kind = match block {
            DocxBlock::Heading { level, text: _, para_id: _ } => Some(
                NodeKind::Heading { level: *level },
            ),
            DocxBlock::Unstructured { kind: _, raw: _, para_id: _, image: _, anchor: _ } => Some(
                NodeKind::Opaque,
            ),
            DocxBlock::Paragraph { text: _, para_id: _ } => None,
        };
        if let Some(kind) = kind {
            if let Err(e) = model.apply_op(&Target::Node(id.clone()), &Op::SetKind { kind }) {
                return Err(import_error(i, " setkind: ", e.shown().as_str()));
            }
        }
        ids.push(id);
        i += 1;
    }
    proof {
        assert(ops::seen(ids@) =~= docx_ids(base as nat, blocks@.len()));
    }
    Ok(ids)
}

/// Reads a file with a backend and imports its blocks.
pub fn import_docx<B: DocxBackend>(backend: &B, path: &str, model: &mut ProseModel) -> (r: Result<
    Vec<NodeId>,
    String,
>)
    requires
        forall|b: Vec<DocxBlock>| #[trigger]
            call_ensures(B::read_blocks, (backend, path), Ok::<Vec<DocxBlock>, String>(b))
                ==> import_fits(old(model)@, b@.len()),
    ensures
        exists|read: Result<Vec<DocxBlock>, String>|
            {
                &&& #[trigger] call_ensures(B::read_blocks, (backend, path), read)
                &&& match read {
                    Err(e) => r == Err::<Vec<NodeId>, String>(e) && final(model)@ == old(model)@,
                    Ok(blocks) => {
                        let base = root_children(old(model)@);
                        let (state, failed) = import_from(
                            old(model)@,
                            ops::seen(blocks@),
                            base,
                            0,
                        );
                        &&& final(model)@ == state
                        &&& match r {
                            Ok(ids) => failed is None && ops::seen(ids@) == docx_ids(
                                base,
                                blocks@.len(),
                            ),
                            Err(e) => failed == Some(e@),
                        }
                    },
                }
            },
        old(model)@.sound() ==> final(model)@.sound(),
{
    let read = backend.read_blocks(path);
    let ghost got = read;
    match read {
        Err(e) => {
            proof {
                assert(call_ensures(B::read_blocks, (backend, path), got));
            }
            Err(e)
        },
        Ok(blocks) => {
            proof {
                assert(call_ensures(B::read_blocks, (backend, path), got));
            }
            import_blocks(model, blocks.as_slice())
        },
    }
}

// ---------------------------------------------------------------- laws of import

/// The node that a block becomes.
pub open spec fn block_node(block: BlockView) -> NodeView {
    NodeView { kind: block.node_kind(), text: block.node_text(), children: Seq::empty() }
}

/// The ids that an import of `len` blocks uses are free.
pub open spec fn ids_free(doc: Doc, base: nat, len: nat) -> bool {
    forall|i: int| 0 <= i < len ==> !#[trigger] doc.nodes.has(docx_id((base + i) as nat))
}

/// `doc` is `from` with the first `n` blocks entered after the children of the root.
pub open spec fn holds_blocks(from: Doc, doc: Doc, blocks: Seq<BlockView>, base: nat, n: int) -> bool {
    &&& doc.root == from.root
    &&& doc.toc == from.toc
    &&& forall|k: Seq<char>| #[trigger]
        doc.nodes.map.dom().contains(k) <==> from.nodes.has(k) || docx_ids(base, n as nat).contains(k)
    &&& doc.nodes.map[doc.root] == from.nodes.map[from.root].with_children(
        from.nodes.map[from.root].children + docx_ids(base, n as nat),
    )
    &&& forall|j: int|
        0 <= j < n ==> #[trigger] doc.nodes.map[docx_id((base + j) as nat)] == block_node(blocks[j])
    &&& forall|k: Seq<char>| #[trigger]
        from.nodes.map.dom().contains(k) && k != from.root ==> doc.nodes.map[k] == from.nodes.map[k]
}

/// Every text of the blocks has a length that a machine can count.
pub open spec fn blocks_countable(blocks: Seq<BlockView>) -> bool {
    forall|i: int| 0 <= i < blocks.len() ==> (#[trigger] blocks[i]).node_text().len() <= usize::MAX
}

pub proof fn lemma_ids_differ(base: nat, i: int, j: int)
    requires
        0 <= i,
        0 <= j,
        docx_id((base + i) as nat) == docx_id((base + j) as nat),
    ensures
        i == j,
{
    let a = text::decimal((base + i) as nat);
    let b = text::decimal((base + j) as nat);
    let p = "docx:"@;
    assert((p + a).skip(p.len() as int) =~= a);
    assert((p + b).skip(p.len() as int) =~= b);
    text::law_decimal_is_injective((base + i) as nat, (base + j) as nat);
}

proof fn lemma_import_step(from: Doc, doc: Doc, blocks: Seq<BlockView>, base: nat, i: int)
    requires
        0 <= i < blocks.len(),
        from.nodes.has(from.root),
        base == root_children(from),
        base + blocks.len() <= usize::MAX,
        ids_free(from, base, blocks.len()),
        holds_blocks(from, doc, blocks, base, i),
        doc.sound(),
        blocks_countable(blocks),
    ensures
        ({
            let id = docx_id((base + i) as nat);
            &&& doc.applied(doc.root, insert_op(doc, blocks[i], base, i)) matches Ok((inserted, _))
            &&& inserted.applied(id, OpView::SetKind { kind: blocks[i].node_kind() }) matches Ok(
                (done, _),
            )
            &&& inserted.sound()
            &&& done.sound()
            &&& blocks[i].node_kind() is Paragraph ==> holds_blocks(
                from,
                inserted,
                blocks,
                base,
                i + 1,
            )
            &&& holds_blocks(from, done, blocks, base, i + 1)
        }),
{
    let id = docx_id((base + i) as nat);
    let root = doc.root;
    let d = doc.nodes;
    assert(!from.nodes.has(id));
    assert(!d.has(id)) by {
        let ids = docx_ids(base, i as nat);
        if ids.contains(id) {
            let j = choose|j: int| 0 <= j < ids.len() && ids[j] == id;
            lemma_ids_differ(base, i, j);
        }
    }
    assert(d.has(root));
    let op = insert_op(doc, blocks[i], base, i);
    let inserted = doc.applied(root, op)->Ok_0.0;
    let n = inserted.nodes;
    let leaf = NodeView::leaf(blocks[i].node_text());
    let kids = d.map[root].children;
    assert(kids.insert((base + i) as int, id) =~= kids.push(id));
    assert(from.nodes.map[root].children + docx_ids(base, (i + 1) as nat) =~= kids.push(id));
    assert(n.map[id] == leaf);
    assert(n.map[root] == d.map[root].with_children(kids.push(id)));
    crate::laws::law_ops_keep_the_tree(doc, root, op);
    assert(tree::countable(n.map)) by {
        assert forall|k: Seq<char>| #[trigger] n.map.dom().contains(k) implies n.map[k].text.len()
            <= usize::MAX && n.map[k].children.len() <= usize::MAX by {
            if k != id && k != root {
                assert(d.map.dom().contains(k));
            } else if k == root {
                assert(d.map.dom().contains(root));
            }
        }
    }
    let set = OpView::SetKind { kind: blocks[i].node_kind() };
    let done = inserted.applied(id, set)->Ok_0.0;
    let e = done.nodes;
    crate::laws::law_ops_keep_the_tree(inserted, id, set);
    assert(e.map[id] == block_node(blocks[i]));
    assert(tree::countable(e.map)) by {
        assert forall|k: Seq<char>| #[trigger] e.map.dom().contains(k) implies e.map[k].text.len()
            <= usize::MAX && e.map[k].children.len() <= usize::MAX by {
            assert(n.map.dom().contains(k));
        }
    }
    let ids = docx_ids(base, i as nat);
    let more = docx_ids(base, (i + 1) as nat);
    assert(more =~= ids.push(id));
    assert forall|k: Seq<char>| #[trigger] more.contains(k) <==> ids.contains(k) || k == id by {
        if ids.contains(k) {
            let j = choose|j: int| 0 <= j < ids.len() && ids[j] == k;
            assert(more[j] == k);
        }
        if k == id {
            assert(more[i] == k);
        }
        if more.contains(k) {
            let j = choose|j: int| 0 <= j < more.len() && more[j] == k;
            if j < i {
                assert(ids[j] == k);
            }
        }
    }
    assert forall|j: int| 0 <= j < i + 1 implies #[trigger] e.map[docx_id((base + j) as nat)]
        == block_node(blocks[j]) && (blocks[i].node_kind() is Paragraph ==> n.map[docx_id(
        (base + j) as nat,
    )] == block_node(blocks[j])) by {
        let other = docx_id((base + j) as nat);
        if j < i {
            if other == id {
                lemma_ids_differ(base, i, j);
            }
            assert(!from.nodes.has(other));
            assert(other != root);
            assert(d.map[other] == block_node(blocks[j]));
        }
    }
    assert(holds_blocks(from, done, blocks, base, i + 1));
}

proof fn lemma_import(from: Doc, doc: Doc, blocks: Seq<BlockView>, base: nat, i: int)
    requires
        0 <= i <= blocks.len(),
        from.nodes.has(from.root),
        base == root_children(from),
        base + blocks.len() <= usize::MAX,
        ids_free(from, base, blocks.len()),
        holds_blocks(from, doc, blocks, base, i),
        doc.sound(),
        doc.rev + 2 * (blocks.len() - i) <= u64::MAX,
        blocks_countable(blocks),
    ensures
        ({
            let (end, failed) = import_from(doc, blocks, base, i);
            &&& failed is None
            &&& holds_blocks(from, end, blocks, base, blocks.len() as int)
            &&& end.sound()
            &&& end.rev <= doc.rev + 2 * (blocks.len() - i)
        }),
    decreases blocks.len() - i,
{
    if i < blocks.len() {
        lemma_import_step(from, doc, blocks, base, i);
        let inserted = doc.applied(doc.root, insert_op(doc, blocks[i], base, i))->Ok_0.0;
        if blocks[i].node_kind() is Paragraph {
            lemma_import(from, inserted, blocks, base, i + 1);
        } else {
            let done = inserted.applied(
                docx_id((base + i) as nat),
                OpView::SetKind { kind: blocks[i].node_kind() },
            )->Ok_0.0;
            lemma_import(from, done, blocks, base, i + 1);
        }
    }
}

/// No block is lost: where the ids are free, an import succeeds, every block becomes a node with
/// its text and kind, the nodes stand in document order after the earlier children of the root,
/// everything else is as before, and the document is a tree.
pub proof fn law_import_keeps_every_block(doc: Doc, blocks: Seq<BlockView>)
    requires
        doc.sound(),
        import_fits(doc, blocks.len()),
        ids_free(doc, root_children(doc), blocks.len()),
        blocks_countable(blocks),
    ensures
        ({
            let base = root_children(doc);
            let (end, failed) = import_from(doc, blocks, base, 0);
            &&& failed is None
            &&& holds_blocks(doc, end, blocks, base, blocks.len() as int)
            &&& end.sound()
            &&& end.rev <= doc.rev + 2 * blocks.len()
        }),
{
    let base = root_children(doc);
    assert(docx_ids(base, 0) =~= Seq::empty());
    assert(doc.nodes.map[doc.root].children + docx_ids(base, 0)
        =~= doc.nodes.map[doc.root].children);
    lemma_import(doc, doc, blocks, base, 0);
}

proof fn lemma_import_in_two(doc: Doc, blocks: Seq<BlockView>, base: nat, j: int, i: int)
    requires
        0 <= j <= i <= blocks.len(),
        import_from(doc, blocks.take(i), base, j).1 is None,
    ensures
        import_from(doc, blocks, base, j) == import_from(
            import_from(doc, blocks.take(i), base, j).0,
            blocks,
            base,
            i,
        ),
    decreases i - j,
{
    if j < i {
        assert(blocks.take(i)[j] == blocks[j]);
        let inserted = doc.applied(doc.root, insert_op(doc, blocks[j], base, j))->Ok_0.0;
        if blocks[j].node_kind() is Paragraph {
            lemma_import_in_two(inserted, blocks, base, j + 1, i);
        } else {
            let done = inserted.applied(
                docx_id((base + j) as nat),
                OpView::SetKind { kind: blocks[j].node_kind() },
            )->Ok_0.0;
            lemma_import_in_two(done, blocks, base, j + 1, i);
        }
    }
}

/// An import stops at the first block whose id is in use: it says which block that is, the blocks
/// before it are in the document, and the node with that id stays as it was.
pub proof fn law_import_stops_at_an_id_in_use(doc: Doc, blocks: Seq<BlockView>, i: int)
    requires
        doc.sound(),
        import_fits(doc, blocks.len()),
        blocks_countable(blocks),
        0 <= i < blocks.len(),
        ids_free(doc, root_children(doc), i as nat),
        doc.nodes.has("docx:"@ + text::decimal((root_children(doc) + i) as nat)),
    ensures
        ({
            let base = root_children(doc);
            let id = "docx:"@ + text::decimal((base + i) as nat);
            let (end, failed) = import_from(doc, blocks, base, 0);
            &&& failed == Some(
                "import block "@ + text::decimal(i as nat) + ": "@ + ("DuplicateNode("@ + (
                "NodeId("@ + text::quoted(id) + ")"@) + ")"@),
            )
            &&& end == import_from(doc, blocks.take(i), base, 0).0
            &&& holds_blocks(doc, end, blocks.take(i), base, i)
            &&& end.nodes.has(id)
        }),
{
    let base = root_children(doc);
    let some = blocks.take(i);
    let id = docx_id((base + i) as nat);
    assert(blocks_countable(some)) by {
        assert forall|j: int| 0 <= j < some.len() implies #[trigger] some[j] == blocks[j] by {}
    }
    law_import_keeps_every_block(doc, some);
    let end = import_from(doc, some, base, 0).0;
    lemma_import_in_two(doc, blocks, base, 0, i);
    assert(holds_blocks(doc, end, some, base, i));
    assert(end.nodes.has(id));
    let op = insert_op(end, blocks[i], base, i);
    assert(end.applied(end.root, op) == Err::<(Doc, OpView), PatchErrorView>(
        PatchErrorView::DuplicateNode(id),
    ));
}

} // verus!
