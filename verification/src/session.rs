//! An editing session: one open document, its undo stack, and what the user is told.
use crate::ai::{AiProposal, ChangeView};
use crate::commit;
use crate::commit::{undo, CommitErrorView, DocumentModel};
use crate::describe;
use crate::doc;
use crate::doc::{Doc, NodeView};
use crate::docx;
use crate::docx::{clone_bytes, import_blocks, BlockView, DocxBackend, DocxBlock};
use crate::laws;
use crate::ops;
use crate::ops::{NodeId, NodeKind, Op, OpView, Patch, PatchView, SourceView, Target};
use crate::outline;
use crate::outline::{block_texts, document_blocks, ShownBlock, ViewBlock};
use crate::patchset;
use crate::patchset::PatchSet;
use crate::prose::ProseModel;
use crate::render;
use crate::render::{apply_fragment_edit, render_html, EditError};
use crate::saving;
use crate::text;
use crate::text::{count_text, measure, same_text};
use crate::textmap::{Dict, TextMap};
use crate::tree;
use vstd::prelude::*;
use vstd::string::*;

verus! {

// ---------------------------------------------------------------- the sample document

/// The document of a new model.
pub open spec fn new_doc() -> Doc {
    Doc {
        nodes: Dict::empty().put("root"@, NodeView::leaf(Seq::empty())),
        root: "root"@,
        rev: 0,
        toc: None,
    }
}

/// The document with one more block at the end: the op that inserts it, and the op that sets its
/// kind where it is a heading.
pub open spec fn grown(doc: Doc, id: Seq<char>, text: Seq<char>, level: Option<usize>) -> Doc {
    let at = doc.nodes.map[doc.root].children.len() as int;
    let d = doc::attach(doc.nodes.put(id, NodeView::leaf(text)), doc.root, at, id);
    match level {
        None => Doc { nodes: d, rev: (doc.rev + 1) as u64, ..doc },
        Some(l) => Doc {
            nodes: d.put(id, d.map[id].with_kind(NodeKind::Heading { level: l })),
            rev: (doc.rev + 2) as u64,
            ..doc
        },
    }
}

/// The sample document.
pub open spec fn sample_doc() -> Doc {
    let a = grown(new_doc(), "t"@, "Polaris 文档查看器"@, Some(1));
    let b = grown(a, "s1"@, "一、它是什么"@, Some(2));
    let c = grown(b, "p1"@, "以 Typed Model 为唯一真理之源的 AI-native 文档 runtime。"@, None);
    let d = grown(c, "s2"@, "二、现在能干嘛"@, Some(2));
    grown(d, "p2"@, "点开标题或正文就能改，失焦自动回写到 model；左上角可撤销。"@, None)
}

/// Adds a block at the end of a document.
fn add_block(model: &mut ProseModel, id: &str, text: &str, level: Option<usize>)
    requires
        old(model)@.sound(),
        !old(model)@.nodes.has(id@),
        docx::root_children(old(model)@) < 100,
        old(model)@.rev < 100,
    ensures
        final(model)@ == grown(old(model)@, id@, text@, level),
        final(model)@.sound(),
        forall|k: Seq<char>| #[trigger]
            final(model)@.nodes.map.dom().contains(k) <==> old(model)@.nodes.has(k) || k == id@,
        docx::root_children(final(model)@) == docx::root_children(old(model)@) + 1,
        final(model)@.rev <= old(model)@.rev + 2,
{
    let ghost before = model@;
    let root = model.root().clone();
    let len = match model.children(&root) {
        Some(c) => c.len(),
        None => 0,
    };
    let node = NodeId(id.to_string());
    let op = Op::InsertSection {
        parent: root.clone(),
        index: len,
        id: node.clone(),
        text: text.to_string(),
    };
    let _ = measure(text);
    proof {
        laws::law_ops_keep_the_tree(before, root@, op@);
    }
    let _ = model.apply_op(&Target::Node(root), &op);
    proof {
        let d = before.nodes;
        let n = model@.nodes;
        assert(tree::countable(n.map)) by {
            assert forall|k: Seq<char>| #[trigger] n.map.dom().contains(k) implies n.map[k].text.len()
                <= usize::MAX && n.map[k].children.len() <= usize::MAX by {
                if k != id@ {
                    assert(d.map.dom().contains(k));
                }
            }
        }
        assert(model@.sound());
    }
    if let Some(l) = level {
        let ghost mid = model@;
        let set = Op::SetKind { kind: NodeKind::Heading { level: l } };
        proof {
            laws::law_ops_keep_the_tree(mid, id@, set@);
        }
        let _ = model.apply_op(&Target::Node(node), &set);
        proof {
            let d = mid.nodes;
            let n = model@.nodes;
            assert(tree::countable(n.map)) by {
                assert forall|k: Seq<char>| #[trigger] n.map.dom().contains(k) implies n.map[k].text.len()
                    <= usize::MAX && n.map[k].children.len() <= usize::MAX by {
                    assert(d.map.dom().contains(k));
                }
            }
        }
    }
}

/// The built-in sample document.
pub fn sample_model() -> (m: ProseModel)
    ensures
        m@ == sample_doc(),
        m@.sound(),
{
    let mut m = ProseModel::new();
    proof {
        laws::law_new_document_is_sound();
        reveal_strlit("root");
        reveal_strlit("t");
        reveal_strlit("s1");
        reveal_strlit("p1");
        reveal_strlit("s2");
        reveal_strlit("p2");
        assert("root"@.len() == 4 && "t"@.len() == 1 && "s1"@.len() == 2);
        assert("s1"@[0] == 's' && "s2"@[0] == 's' && "p1"@[0] == 'p' && "p2"@[0] == 'p');
        assert("s1"@[1] == '1' && "s2"@[1] == '2' && "p1"@[1] == '1' && "p2"@[1] == '2');
    }
    add_block(&mut m, "t", "Polaris 文档查看器", Some(1));
    add_block(&mut m, "s1", "一、它是什么", Some(2));
    add_block(
        &mut m,
        "p1",
        "以 Typed Model 为唯一真理之源的 AI-native 文档 runtime。",
        None,
    );
    add_block(&mut m, "s2", "二、现在能干嘛", Some(2));
    add_block(
        &mut m,
        "p2",
        "点开标题或正文就能改，失焦自动回写到 model；左上角可撤销。",
        None,
    );
    m
}

// ---------------------------------------------------------------- the session

/// An editing session.
pub struct PolarisApp {
    pub model: ProseModel,
    /// The blocks on show; an editor may hold text in them that is not written back yet.
    pub blocks: Vec<ViewBlock>,
    pub undo_stack: Vec<PatchSet>,
    /// The text of each node when the document was loaded or last saved.
    pub original: TextMap<String>,
    /// The identity of the paragraph of each node; a node without one cannot be written back.
    pub para_map: TextMap<String>,
    /// The picture of each node that has one.
    pub image_map: TextMap<Vec<u8>>,
    /// The path for inserting after each node.
    pub body_anchor: TextMap<String>,
    pub loaded_path: Option<String>,
    pub status: String,
    pub doc_path: String,
    /// Numbers the paragraphs that are added.
    pub new_counter: usize,
    /// The version that was asked for while there were unsaved changes.
    pub confirm_restore: Option<String>,
    /// The edits of an AI that wait for review.
    pub pending_ai: Option<AiProposal>,
}

/// What a `PolarisApp` holds.
#[verifier::ext_equal]
pub struct Session {
    pub doc: Doc,
    pub blocks: Seq<ShownBlock>,
    pub undo: Seq<Seq<PatchView>>,
    pub original: Dict<Seq<char>>,
    pub para_map: Dict<Seq<char>>,
    pub image_map: Dict<Seq<u8>>,
    pub body_anchor: Dict<Seq<char>>,
    pub loaded_path: Option<Seq<char>>,
    pub status: Seq<char>,
    pub doc_path: Seq<char>,
    pub new_counter: usize,
    pub confirm_restore: Option<Seq<char>>,
    pub pending: Option<Seq<ChangeView>>,
}

impl View for PolarisApp {
    type V = Session;

    open spec fn view(&self) -> Session {
        Session {
            doc: self.model@,
            blocks: ops::seen(self.blocks@),
            undo: ops::seen(self.undo_stack@),
            original: self.original@,
            para_map: self.para_map@,
            image_map: self.image_map@,
            body_anchor: self.body_anchor@,
            loaded_path: docx::opt_text(self.loaded_path),
            status: self.status@,
            doc_path: self.doc_path@,
            new_counter: self.new_counter,
            confirm_restore: docx::opt_text(self.confirm_restore),
            pending: match self.pending_ai {
                Some(p) => Some(ops::seen(p.changes@)),
                None => None,
            },
        }
    }
}

/// On any document with the content of `next`, the inverse set runs through and gives the content
/// of `prev`.
pub open spec fn undoes(next: Doc, inverse: Seq<PatchView>, prev: Doc) -> bool {
    forall|later: Doc| #[trigger]
        later.same_content(next) && later.nodes.tidy() && later.rev + inverse.len() <= u64::MAX
            ==> {
            let (back, result) = commit::undo_outcome::<ProseModel>(later, inverse);
            &&& commit::run_ready::<ProseModel>(later, inverse)
            &&& result is Ok
            &&& back.same_content(prev)
            &&& back.nodes.tidy()
        }
}

/// The undo stack leads back, entry by entry, through documents that are trees.
pub open spec fn undoable(doc: Doc, stack: Seq<Seq<PatchView>>) -> bool
    decreases stack.len(),
{
    stack.len() > 0 ==> exists|prev: Doc|
        prev.sound() && #[trigger] undoes(doc, stack.last(), prev) && undoable(
            prev,
            stack.drop_last(),
        )
}

/// No node has two edits in a proposal.
pub open spec fn one_each(changes: Seq<ChangeView>) -> bool {
    forall|i: int, j: int|
        0 <= i < j < changes.len() ==> (#[trigger] changes[i]).node != (#[trigger] changes[j]).node
}

impl Session {
    /// The document is a tree, every entry of the undo stack can be undone, and no node has two
    /// edits that wait for review.
    pub open spec fn valid(self) -> bool {
        &&& self.doc.sound()
        &&& undoable(self.doc, self.undo)
        &&& self.pending matches Some(changes) ==> one_each(changes)
    }

    /// There are numbers for `n` more revisions.
    pub open spec fn room(self, n: int) -> bool {
        self.doc.rev + n <= u64::MAX
    }

    /// The session after a set was committed: on success the inverse set goes on the undo stack
    /// and the blocks are shown anew.
    pub open spec fn after_commit(
        self,
        ps: Seq<PatchView>,
        done: Seq<char>,
        failed: Seq<char>,
    ) -> Session {
        let (doc, result) = commit::commit_outcome::<ProseModel>(self.doc, ps);
        match result {
            Ok(inverse) => Session {
                doc,
                undo: self.undo.push(inverse),
                blocks: outline::shown(doc),
                status: done,
                ..self
            },
            Err(e) => Session { doc, status: failed + describe::commit_error_shown(e), ..self },
        }
    }
}

proof fn lemma_undoable_same(a: Doc, b: Doc, stack: Seq<Seq<PatchView>>)
    requires
        undoable(a, stack),
        b.same_content(a),
    ensures
        undoable(b, stack),
{
    if stack.len() > 0 {
        let prev = choose|prev: Doc|
            prev.sound() && #[trigger] undoes(a, stack.last(), prev) && undoable(
                prev,
                stack.drop_last(),
            );
        assert(undoes(b, stack.last(), prev)) by {
            assert forall|later: Doc| #[trigger]
                later.same_content(b) && later.nodes.tidy() && later.rev + stack.last().len()
                    <= u64::MAX implies {
                let (back, result) = commit::undo_outcome::<ProseModel>(later, stack.last());
                &&& commit::run_ready::<ProseModel>(later, stack.last())
                &&& result is Ok
                &&& back.same_content(prev)
                &&& back.nodes.tidy()
            } by {
                assert(later.same_content(a));
            }
        }
    }
}

/// A document with the content of a sound one, whose table is in order, is sound.
proof fn lemma_sound_same(a: Doc, b: Doc)
    requires
        a.sound(),
        b.same_content(a),
        b.nodes.tidy(),
    ensures
        b.sound(),
{
}

/// Committing a set keeps a session valid.
pub proof fn lemma_commit_valid(s: Session, ps: Seq<PatchView>, done: Seq<char>, failed: Seq<char>)
    requires
        s.valid(),
        patchset::topo(ps) is Ok ==> laws::stays_countable(s.doc, commit::ordered(ps), 0),
        s.room(2 * ps.len() as int),
    ensures
        commit::commit_ready::<ProseModel>(s.doc, ps),
        s.after_commit(ps, done, failed).valid(),
{
    laws::law_failed_commit_changes_nothing(s.doc, ps);
    let (next, result) = commit::commit_outcome::<ProseModel>(s.doc, ps);
    match result {
        Ok(inverse) => {
            laws::law_inverse_set_mirrors_the_run::<ProseModel>(s.doc, ps);
            assert(undoes(next, inverse, s.doc)) by {
                assert forall|later: Doc| #[trigger]
                    later.same_content(next) && later.nodes.tidy() && later.rev + inverse.len()
                        <= u64::MAX implies {
                    let (back, r) = commit::undo_outcome::<ProseModel>(later, inverse);
                    &&& commit::run_ready::<ProseModel>(later, inverse)
                    &&& r is Ok
                    &&& back.same_content(s.doc)
                    &&& back.nodes.tidy()
                } by {
                    laws::law_undo_restores(s.doc, ps, later);
                }
            }
            let stack = s.undo.push(inverse);
            assert(stack.drop_last() =~= s.undo);
            assert(stack.last() == inverse);
            assert(undoable(next, stack));
        },
        Err(_) => {
            lemma_undoable_same(s.doc, next, s.undo);
            lemma_sound_same(s.doc, next);
        },
    }
}

/// A set of one patch that brings in no id that is taken can be committed.
pub proof fn lemma_one_patch(s: Session, p: PatchView)
    requires
        s.doc.sound(),
        !p.unreviewed(),
        p.depends_on.len() == 0,
        s.doc.applied(p.target, p.op) matches Ok((next, _)) ==> tree::countable(next.nodes.map),
    ensures
        patchset::topo(seq![p]) is Ok,
        laws::stays_countable(s.doc, commit::ordered(seq![p]), 0),
{
    render::lemma_commit_one(s.doc, p);
    let ps = seq![p];
    if let Ok((next, _)) = s.doc.applied(p.target, p.op) {
        assert(laws::stays_countable(next, ps, 1));
    }
}

// ---------------------------------------------------------------- opening a document

/// The identities of the first `n` blocks, by node.
pub open spec fn identities(blocks: Seq<BlockView>, n: int) -> Dict<Seq<char>>
    decreases n,
{
    if n <= 0 {
        Dict::empty()
    } else {
        match blocks[n - 1].identity() {
            Some(id) => identities(blocks, n - 1).put(docx::docx_id((n - 1) as nat), id),
            None => identities(blocks, n - 1),
        }
    }
}

/// The pictures of the first `n` blocks, by node.
pub open spec fn pictures(blocks: Seq<BlockView>, n: int) -> Dict<Seq<u8>>
    decreases n,
{
    if n <= 0 {
        Dict::empty()
    } else {
        match blocks[n - 1].picture() {
            Some(b) => pictures(blocks, n - 1).put(docx::docx_id((n - 1) as nat), b),
            None => pictures(blocks, n - 1),
        }
    }
}

/// The paths for inserting after the first `n` blocks, by node.
pub open spec fn anchors(blocks: Seq<BlockView>, n: int) -> Dict<Seq<char>>
    decreases n,
{
    if n <= 0 {
        Dict::empty()
    } else {
        match blocks[n - 1].after_path() {
            Some(a) => anchors(blocks, n - 1).put(docx::docx_id((n - 1) as nat), a),
            None => anchors(blocks, n - 1),
        }
    }
}

/// The document that the blocks of a file make.
pub open spec fn imported(blocks: Seq<BlockView>) -> Doc {
    docx::import_from(new_doc(), blocks, 0, 0).0
}

impl Session {
    /// The session after a file with these blocks was opened.
    pub open spec fn loaded(self, blocks: Seq<BlockView>, path: Seq<char>) -> Session {
        let doc = imported(blocks);
        let n = blocks.len() as int;
        Session {
            doc,
            blocks: outline::shown(doc),
            undo: Seq::empty(),
            original: outline::texts_of(outline::shown(doc)),
            para_map: identities(blocks, n),
            image_map: pictures(blocks, n),
            body_anchor: anchors(blocks, n),
            loaded_path: Some(path),
            confirm_restore: None,
            ..self
        }
    }
}

/// Any file can be opened: its document is a tree that holds every block in order.
pub proof fn law_opened_document_holds_the_blocks(blocks: Seq<BlockView>)
    requires
        docx::import_fits(new_doc(), blocks.len()),
        docx::blocks_countable(blocks),
    ensures
        docx::import_from(new_doc(), blocks, 0, 0).1 is None,
        imported(blocks).sound(),
        docx::holds_blocks(new_doc(), imported(blocks), blocks, 0, blocks.len() as int),
{
    laws::law_new_document_is_sound();
    assert(docx::root_children(new_doc()) == 0);
    assert forall|i: int| 0 <= i < blocks.len() implies !#[trigger] new_doc().nodes.has(
        docx::docx_id((0 + i) as nat),
    ) by {
        reveal_strlit("root");
        reveal_strlit("docx:");
        assert("root"@[0] == 'r');
        assert(docx::docx_id((0 + i) as nat)[0] == 'd');
    }
    docx::law_import_keeps_every_block(new_doc(), blocks);
}

/// The path of the document that is offered at the start: the one that was asked for, or one in
/// the user's downloads.
pub fn default_doc_path(wanted: Option<String>, home: Option<String>) -> (r: String)
    ensures
        r@ == match wanted {
            Some(p) => p@,
            None => match home {
                Some(h) => h@ + "/Downloads/话术库.docx"@,
                None => "/Downloads/话术库.docx"@,
            },
        },
{
    match wanted {
        Some(p) => p,
        None => match home {
            Some(h) => {
                let mut path = h;
                path.append("/Downloads/话术库.docx");
                path
            },
            None => "/Downloads/话术库.docx".to_string(),
        },
    }
}

impl PolarisApp {
    /// A session with the sample document.
    pub fn new() -> (r: Self)
        ensures
            r@ == (Session {
                doc: sample_doc(),
                blocks: outline::shown(sample_doc()),
                undo: Seq::empty(),
                original: Dict::empty(),
                para_map: Dict::empty(),
                image_map: Dict::empty(),
                body_anchor: Dict::empty(),
                loaded_path: None,
                status: "就绪"@,
                doc_path: Seq::empty(),
                new_counter: 0,
                confirm_restore: None,
                pending: None,
            }),
            r@.valid(),
    {
        let model = sample_model();
        let blocks = document_blocks(&model);
        let r = PolarisApp {
            model,
            blocks,
            undo_stack: Vec::new(),
            original: TextMap::new(),
            para_map: TextMap::new(),
            image_map: TextMap::new(),
            body_anchor: TextMap::new(),
            loaded_path: None,
            status: "就绪".to_string(),
            doc_path: String::new(),
            new_counter: 0,
            confirm_restore: None,
            pending_ai: None,
        };
        proof {
            assert(r@.undo =~= Seq::empty());
        }
        r
    }

    /// Shows the blocks of the document anew.
    pub fn rebuild_blocks(&mut self)
        requires
            doc::walkable(old(self)@.doc.nodes.map, old(self)@.doc.root),
        ensures
            final(self)@ == (Session { blocks: outline::shown(old(self)@.doc), ..old(self)@ }),
    {
        self.blocks = document_blocks(&self.model);
    }

    /// Opens a file: its blocks become a new document, and the undo stack is emptied. When the
    /// backend cannot read the file the session stays as it is.
    pub fn load_from_backend<B: DocxBackend>(&mut self, backend: &B, path: &str) -> (r: Result<
        (),
        String,
    >)
        requires
            old(self)@.valid(),
            forall|b: Vec<DocxBlock>| #[trigger]
                call_ensures(B::read_blocks, (backend, path), Ok::<Vec<DocxBlock>, String>(b))
                    ==> docx::import_fits(new_doc(), b@.len()),
        ensures
            exists|read: Result<Vec<DocxBlock>, String>|
                {
                    &&& #[trigger] call_ensures(B::read_blocks, (backend, path), read)
                    &&& match read {
                        Err(e) => r == Err::<(), String>(e) && final(self)@ == old(self)@,
                        Ok(blocks) => r is Ok && final(self)@ == old(self)@.loaded(
                            ops::seen(blocks@),
                            path@,
                        ),
                    }
                },
            r is Ok ==> !final(self)@.unsaved() && final(self)@.pending_list().len() == 0
                && final(self)@.skipped() == 0,
            final(self)@.valid(),
    {
        let read = backend.read_blocks(path);
        let ghost got = read;
        proof {
            assert(call_ensures(B::read_blocks, (backend, path), got));
        }
        match read {
            Err(e) => Err(e),
            Ok(blocks) => self.load_blocks(&blocks, path),
        }
    }

    /// Opens a file whose blocks have been read.
    pub fn load_blocks(&mut self, blocks: &Vec<DocxBlock>, path: &str) -> (r: Result<(), String>)
        requires
            old(self)@.valid(),
            docx::import_fits(new_doc(), blocks@.len()),
        ensures
            r is Ok,
            final(self)@ == old(self)@.loaded(ops::seen(blocks@), path@),
            !final(self)@.unsaved(),
            final(self)@.pending_list().len() == 0,
            final(self)@.skipped() == 0,
            final(self)@.valid(),
    {
        let ghost views = ops::seen(blocks@);
        let ghost before = self@;
        let mut model = ProseModel::new();
        let mut paras: TextMap<String> = TextMap::new();
        let mut images: TextMap<Vec<u8>> = TextMap::new();
        let mut places: TextMap<String> = TextMap::new();
        let mut i: usize = 0;
        while i < blocks.len()
            invariant
                i <= blocks@.len(),
                views == ops::seen(blocks@),
                paras@ == identities(views, i as int),
                images@ == pictures(views, i as int),
                places@ == anchors(views, i as int),
                forall|j: int|
                    0 <= j < i ==> (#[trigger] views[j]).node_text().len() <= usize::MAX,
            decreases blocks@.len() - i,
        {
            let block = &blocks[i];
            proof {
                assert(views[i as int] == block@);
            }
            match block {
                DocxBlock::Heading { level: _, text, para_id: _ } => {
                    let _ = measure(text.as_str());
                },
                DocxBlock::Paragraph { text, para_id: _ } => {
                    let _ = measure(text.as_str());
                },
                DocxBlock::Unstructured { kind: _, raw, para_id: _, image: _, anchor: _ } => {
                    let _ = measure(raw.as_str());
                },
            }
            let mut id = "docx:".to_string();
            id.append(count_text(i).as_str());
            if let Some(p) = block.para_id() {
                paras.insert(id.clone(), p.to_string());
            }
            if let DocxBlock::Unstructured { kind: _, raw: _, para_id: _, image: Some(b), anchor: _ } =
                block {
                images.insert(id.clone(), clone_bytes(b));
            }
            if let Some(a) = block.body_anchor() {
                places.insert(id, a);
            }
            i += 1;
        }
        proof {
            law_opened_document_holds_the_blocks(views);
            saving::law_nothing_to_save_after_loading(before, views, path@);
        }
        if let Err(e) = import_blocks(&mut model, blocks.as_slice()) {
            return Err(e);
        }
        self.para_map = paras;
        self.image_map = images;
        self.body_anchor = places;
        self.model = model;
        self.rebuild_blocks();
        self.undo_stack = Vec::new();
        self.confirm_restore = None;
        self.loaded_path = Some(path.to_string());
        self.original = block_texts(&self.blocks);
        proof {
            assert(self@.undo =~= Seq::empty());
            assert(self@ =~= before.loaded(views, path@));
        }
        Ok(())
    }

    /// What the status line says after opening a file.
    pub fn report_open(&mut self, path: &str, result: Result<(), String>)
        ensures
            final(self)@ == (Session {
                status: match result {
                    Ok(()) => "已打开 "@ + path@ + "（"@ + text::decimal(
                        old(self)@.blocks.len(),
                    ) + " 块）"@,
                    Err(e) => "打开失败: "@ + e@,
                },
                ..old(self)@
            }),
    {
        match result {
            Ok(()) => {
                let mut s = "已打开 ".to_string();
                s.append(path);
                s.append("（");
                s.append(count_text(self.blocks.len()).as_str());
                s.append(" 块）");
                self.status = s;
            },
            Err(e) => {
                let mut s = "打开失败: ".to_string();
                s.append(e.as_str());
                self.status = s;
            },
        }
    }

    /// Opens a file and says in the status line how that went.
    pub fn open_path<B: DocxBackend>(&mut self, backend: &B, path: &str)
        requires
            old(self)@.valid(),
            forall|b: Vec<DocxBlock>| #[trigger]
                call_ensures(B::read_blocks, (backend, path), Ok::<Vec<DocxBlock>, String>(b))
                    ==> docx::import_fits(new_doc(), b@.len()),
        ensures
            exists|read: Result<Vec<DocxBlock>, String>|
                {
                    &&& #[trigger] call_ensures(B::read_blocks, (backend, path), read)
                    &&& match read {
                        Err(e) => final(self)@ == (Session {
                            status: "打开失败: "@ + e@,
                            ..old(self)@
                        }),
                        Ok(blocks) => {
                            let s = old(self)@.loaded(ops::seen(blocks@), path@);
                            final(self)@ == (Session {
                                status: "已打开 "@ + path@ + "（"@ + text::decimal(s.blocks.len())
                                    + " 块）"@,
                                ..s
                            })
                        },
                    }
                },
            final(self)@.valid(),
    {
        let result = self.load_from_backend(backend, path);
        self.report_open(path, result);
    }

    // ------------------------------------------------------------ edits

    /// Commits a set; on success the inverse goes on the undo stack and the blocks are shown anew.
    pub(crate) fn commit_set(&mut self, set: &PatchSet, done: String, failed: &str)
        requires
            old(self)@.valid(),
            patchset::topo(set@) is Ok ==> laws::stays_countable(old(self)@.doc, commit::ordered(set@), 0),
            old(self)@.room(2 * set@.len() as int),
        ensures
            final(self)@ == old(self)@.after_commit(set@, done@, failed@),
            final(self)@.valid(),
    {
        let ghost before = self@;
        proof {
            lemma_commit_valid(before, set@, done@, failed@);
        }
        match commit(&mut self.model, set) {
            Ok(inverse) => {
                let ghost stack = self.undo_stack@;
                self.undo_stack.push(inverse);
                proof {
                    assert(ops::seen(self.undo_stack@) =~= ops::seen(stack).push(inverse@));
                }
                self.rebuild_blocks();
                self.status = done;
            },
            Err(e) => {
                let mut s = failed.to_string();
                s.append(e.shown().as_str());
                self.status = s;
            },
        }
        proof {
            assert(self@ =~= before.after_commit(set@, done@, failed@));
        }
    }

    /// Deletes a node with all that is under it.
    pub fn delete_block(&mut self, node: &NodeId)
        requires
            old(self)@.valid(),
            old(self)@.room(2),
        ensures
            final(self)@ == old(self)@.after_commit(
                seq![delete_patch(node@)],
                "已删除 "@ + node@ + "（撤销可恢复）"@,
                "删除失败: "@,
            ),
            final(self)@.valid(),
    {
        let patch = Patch::authored(
            "del",
            Target::Node(node.clone()),
            Op::RemoveNode { id: node.clone() },
        );
        let mut list: Vec<Patch> = Vec::new();
        list.push(patch);
        let set = PatchSet::new(list);
        proof {
            assert(set@ =~= seq![delete_patch(node@)]);
            let p = delete_patch(node@);
            if let Ok((next, _)) = self@.doc.applied(p.target, p.op) {
                lemma_removal_countable(self@.doc, node@);
            }
            lemma_one_patch(self@, p);
        }
        let mut done = "已删除 ".to_string();
        done.append(node.0.as_str());
        done.append("（撤销可恢复）");
        self.commit_set(&set, done, "删除失败: ");
    }

    /// Inserts a new paragraph as child number `index` of the root.
    pub fn insert_paragraph(&mut self, index: usize)
        requires
            old(self)@.valid(),
            old(self)@.room(2),
            old(self)@.new_counter < usize::MAX,
            docx::root_children(old(self)@.doc) < usize::MAX,
        ensures
            final(self)@ == old(self)@.paragraph_added(index),
            final(self)@.valid(),
    {
        let ghost before = self@;
        let root = self.model.root().clone();
        let mut name = "new:".to_string();
        name.append(count_text(self.new_counter).as_str());
        self.new_counter = self.new_counter + 1;
        let ghost counted = self@;
        let patch = Patch::authored(
            "add",
            Target::Node(root.clone()),
            Op::InsertSection {
                parent: root,
                index,
                id: NodeId(name),
                text: "新段落".to_string(),
            },
        );
        let mut list: Vec<Patch> = Vec::new();
        list.push(patch);
        let set = PatchSet::new(list);
        proof {
            let p = add_patch(before.doc, before.new_counter as nat, index);
            assert(set@ =~= seq![p]);
            if let Ok((next, _)) = before.doc.applied(p.target, p.op) {
                reveal_strlit("新段落");
                let d = before.doc.nodes;
                let n = next.nodes;
                assert forall|k: Seq<char>| #[trigger] n.map.dom().contains(
                    k,
                ) implies n.map[k].text.len() <= usize::MAX && n.map[k].children.len()
                    <= usize::MAX by {
                    if k != p.op->InsertSection_id {
                        assert(d.map.dom().contains(k));
                    }
                }
            }
            lemma_one_patch(counted, p);
        }
        self.commit_set(&set, "已加段落（撤销可移除）".to_string(), "加段落失败: ");
    }

    /// Adds a new paragraph at the end.
    pub fn add_paragraph(&mut self)
        requires
            old(self)@.valid(),
            old(self)@.room(2),
            old(self)@.new_counter < usize::MAX,
            docx::root_children(old(self)@.doc) < usize::MAX,
        ensures
            final(self)@ == old(self)@.paragraph_added(
                docx::root_children(old(self)@.doc) as usize,
            ),
            final(self)@.valid(),
    {
        let root = self.model.root().clone();
        let n = match self.model.children(&root) {
            Some(c) => c.len(),
            None => 0,
        };
        self.insert_paragraph(n);
    }

    /// Adds a new paragraph behind a child of the root; at the end, if the node is none.
    pub fn add_paragraph_after(&mut self, node: &NodeId)
        requires
            old(self)@.valid(),
            old(self)@.room(2),
            old(self)@.new_counter < usize::MAX,
            docx::root_children(old(self)@.doc) < usize::MAX,
        ensures
            final(self)@ == old(self)@.paragraph_added(place_after(old(self)@.doc, node@) as usize),
            final(self)@.valid(),
    {
        let root = self.model.root().clone();
        let index: usize = match self.model.children(&root) {
            Some(children) => {
                let ghost kids = ops::seen(children@);
                let mut i: usize = 0;
                while i < children.len() && !same_text(children[i].0.as_str(), node.0.as_str())
                    invariant
                        i <= children@.len(),
                        kids == ops::seen(children@),
                        forall|j: int| 0 <= j < i ==> #[trigger] kids[j] != node@,
                    decreases children@.len() - i,
                {
                    proof {
                        assert(kids[i as int] == children@[i as int]@);
                    }
                    i += 1;
                }
                if i < children.len() {
                    proof {
                        assert(kids[i as int] == children@[i as int]@);
                        assert(doc::first_at(kids, node@, i as int));
                        let c = choose|c: int| doc::first_at(kids, node@, c);
                        assert(doc::first_at(kids, node@, c));
                        if c < i {
                            assert(kids[c] != node@);
                        } else if i < c {
                            assert(kids[i as int] != node@);
                        }
                    }
                    i + 1
                } else {
                    proof {
                        assert forall|c: int| !doc::first_at(kids, node@, c) by {
                            if doc::first_at(kids, node@, c) {
                                assert(kids[c] == node@);
                            }
                        }
                    }
                    i
                }
            },
            None => 0,
        };
        self.insert_paragraph(index);
    }

    /// Whether a block may be deleted: an opaque one only if it can be written back.
    pub fn deletable(&self, b: &ViewBlock) -> (r: bool)
        ensures
            r == (!(b@.kind is Opaque) || self@.para_map.has(b@.node)),
    {
        b.kind != NodeKind::Opaque || self.para_map.contains_key(b.node.0.as_str())
    }

    /// Writes an edited text back to its node. Nothing happens if the text is the one that the node
    /// has. A node that cannot be edited, because it is opaque or has no text, is refused.
    pub fn commit_edit(&mut self, node: &NodeId, new_text: &str) -> (r: Result<(), EditError>)
        requires
            old(self)@.valid(),
            old(self)@.room(2),
        ensures
            match r {
                Ok(()) => final(self)@ == old(self)@.edited(node@, new_text@) && (
                old(self)@.doc.has_text(node@, new_text@) || editable(old(self)@.doc, node@)),
                Err(EditError::NoSpan(n)) => n@ == node@ && final(self)@ == old(self)@
                    && !old(self)@.doc.has_text(node@, new_text@) && !editable(
                    old(self)@.doc,
                    node@,
                ),
                Err(EditError::Commit(_)) => false,
            },
            final(self)@.valid(),
    {
        let ghost before = self@;
        if let Some(t) = self.model.get_text(node) {
            if same_text(t, new_text) {
                return Ok(());
            }
        }
        let rendered = render_html(&self.model);
        let source_map = rendered.source_map;
        let _ = measure(new_text);
        let ghost m = before.doc.nodes.map;
        let ghost ids = doc::preorder(m, before.doc.root);
        proof {
            render::law_editable_nodes_have_spans(m, ids, node@);
            lemma_edit(before, node@, new_text@);
        }
        match apply_fragment_edit(&mut self.model, &source_map, node, new_text) {
            Ok(inverse) => {
                let ghost stack = self.undo_stack@;
                self.undo_stack.push(inverse);
                let mut s = "已回写 ".to_string();
                s.append(node.0.as_str());
                s.append("（撤销栈 ");
                s.append(count_text(self.undo_stack.len()).as_str());
                s.append("）");
                self.status = s;
                proof {
                    assert(ops::seen(self.undo_stack@) =~= ops::seen(stack).push(inverse@));
                    assert(self@ =~= before.edited(node@, new_text@));
                }
                Ok(())
            },
            Err(e) => Err(e),
        }
    }

    /// Takes the last edit back.
    pub fn undo_last(&mut self)
        requires
            old(self)@.valid(),
            old(self)@.undo.len() > 0 ==> old(self)@.room(old(self)@.undo.last().len() as int),
        ensures
            final(self)@ == old(self)@.undone(),
            final(self)@.valid(),
    {
        let ghost before = self@;
        let ghost stack = self.undo_stack@;
        match self.undo_stack.pop() {
            Some(inverse) => {
                proof {
                    assert(before.undo.last() == inverse@);
                    lemma_undone(before);
                    assert(ops::seen(self.undo_stack@) =~= before.undo.drop_last());
                }
                let _ = undo(&mut self.model, &inverse);
                self.rebuild_blocks();
                let mut s = "已撤销（撤销栈 ".to_string();
                s.append(count_text(self.undo_stack.len()).as_str());
                s.append("）");
                self.status = s;
                proof {
                    assert(self@ =~= before.undone());
                }
            },
            None => {
                self.status = "没有可撤销的编辑".to_string();
            },
        }
    }
}

/// The patch that deletes a node.
pub open spec fn delete_patch(node: Seq<char>) -> PatchView {
    PatchView {
        id: "del"@,
        source: SourceView::Authored,
        target: node,
        op: OpView::RemoveNode { id: node },
        depends_on: Seq::empty(),
    }
}

/// The patch that adds paragraph number `n`.
pub open spec fn add_patch(doc: Doc, n: nat, index: usize) -> PatchView {
    PatchView {
        id: "add"@,
        source: SourceView::Authored,
        target: doc.root,
        op: OpView::InsertSection {
            parent: doc.root,
            index,
            id: "new:"@ + text::decimal(n),
            text: "新段落"@,
        },
        depends_on: Seq::empty(),
    }
}

/// The place behind a node in a list; the end, if it is not in it.
pub open spec fn place_behind(ids: Seq<Seq<char>>, node: Seq<char>) -> int {
    if exists|i: int| doc::first_at(ids, node, i) {
        (choose|i: int| doc::first_at(ids, node, i)) + 1
    } else {
        ids.len() as int
    }
}

/// The child index behind a node among the children of the root.
pub open spec fn place_after(doc: Doc, node: Seq<char>) -> int {
    if doc.nodes.has(doc.root) {
        place_behind(doc.nodes.map[doc.root].children, node)
    } else {
        0
    }
}

impl Doc {
    /// The node is there with this text.
    pub open spec fn has_text(self, node: Seq<char>, text: Seq<char>) -> bool {
        self.nodes.has(node) && self.nodes.map[node].text == text
    }
}

/// The node can be edited: it is on show and not opaque.
pub open spec fn editable(doc: Doc, node: Seq<char>) -> bool {
    let m = doc.nodes.map;
    &&& doc::preorder(m, doc.root).contains(node)
    &&& m[node].text.len() > 0
    &&& !(m[node].kind is Opaque)
}

/// Every node with text that is not opaque can be edited, and no other.
pub proof fn law_texts_can_be_edited(doc: Doc, node: Seq<char>)
    requires
        doc.sound(),
        doc.nodes.has(node),
    ensures
        editable(doc, node) <==> doc.nodes.map[node].text.len() > 0 && !(doc.nodes.map[node].kind is
            Opaque),
{
    outline::lemma_preorder_is_complete(doc, node);
}

/// The patch that takes an edit back.
pub open spec fn edit_inverse(doc: Doc, node: Seq<char>, new_text: Seq<char>) -> PatchView {
    PatchView {
        id: "inv:"@ + "edit"@,
        source: SourceView::Authored,
        target: node,
        op: OpView::SetSpan {
            range: crate::offsets::CharRange {
                start: crate::offsets::Pos(0),
                end: crate::offsets::Pos(new_text.len() as usize),
            },
            text: doc.nodes.map[node].text,
        },
        depends_on: Seq::empty(),
    }
}

impl Session {
    /// The session after a new paragraph was added.
    pub open spec fn paragraph_added(self, index: usize) -> Session {
        (Session { new_counter: (self.new_counter + 1) as usize, ..self }).after_commit(
            seq![add_patch(self.doc, self.new_counter as nat, index)],
            "已加段落（撤销可移除）"@,
            "加段落失败: "@,
        )
    }

    /// The session after an edit was written back. The blocks on show are left alone: they hold
    /// the edit already.
    pub open spec fn edited(self, node: Seq<char>, new_text: Seq<char>) -> Session {
        if self.doc.has_text(node, new_text) {
            self
        } else {
            Session {
                doc: Doc {
                    nodes: self.doc.nodes.put(
                        node,
                        self.doc.nodes.map[node].with_text(new_text),
                    ),
                    rev: (self.doc.rev + 1) as u64,
                    ..self.doc
                },
                undo: self.undo.push(seq![edit_inverse(self.doc, node, new_text)]),
                status: "已回写 "@ + node + "（撤销栈 "@ + text::decimal(
                    (self.undo.len() + 1) as nat,
                ) + "）"@,
                ..self
            }
        }
    }

    /// The session after the last edit was taken back.
    pub open spec fn undone(self) -> Session {
        if self.undo.len() == 0 {
            Session { status: "没有可撤销的编辑"@, ..self }
        } else {
            let doc = commit::undo_outcome::<ProseModel>(self.doc, self.undo.last()).0;
            Session {
                doc,
                undo: self.undo.drop_last(),
                blocks: outline::shown(doc),
                status: "已撤销（撤销栈 "@ + text::decimal((self.undo.len() - 1) as nat) + "）"@,
                ..self
            }
        }
    }
}

/// Undoing keeps a session valid.
pub proof fn lemma_undone(s: Session)
    requires
        s.valid(),
        s.undo.len() > 0,
        s.room(s.undo.last().len() as int),
    ensures
        commit::run_ready::<ProseModel>(s.doc, s.undo.last()),
        commit::undo_outcome::<ProseModel>(s.doc, s.undo.last()).1 is Ok,
        s.undone().valid(),
{
    let prev = choose|prev: Doc|
        prev.sound() && #[trigger] undoes(s.doc, s.undo.last(), prev) && undoable(
            prev,
            s.undo.drop_last(),
        );
    assert(s.doc.same_content(s.doc));
    let back = commit::undo_outcome::<ProseModel>(s.doc, s.undo.last()).0;
    lemma_sound_same(prev, back);
    lemma_undoable_same(prev, back, s.undo.drop_last());
}

/// Removing a subtree leaves everything countable.
proof fn lemma_removal_countable(doc: Doc, id: Seq<char>)
    requires
        doc.sound(),
        doc.applied(id, OpView::RemoveNode { id }) is Ok,
    ensures
        tree::countable(doc.applied(id, OpView::RemoveNode { id })->Ok_0.0.nodes.map),
{
    let d = doc.nodes;
    let n = doc.applied(id, OpView::RemoveNode { id })->Ok_0.0.nodes;
    tree::lemma_parent_lists(d, id);
    let (p, i) = doc::parent_of(d, id)->Some_0;
    assert forall|k: Seq<char>| #[trigger] n.map.dom().contains(k) implies n.map[k].text.len()
        <= usize::MAX && n.map[k].children.len() <= usize::MAX by {
        assert(d.map.dom().contains(k));
    }
}

/// What committing the edit of a node gives.
proof fn lemma_edit(s: Session, node: Seq<char>, new_text: Seq<char>)
    requires
        s.valid(),
        s.room(2),
        new_text.len() <= usize::MAX,
    ensures
        ({
            let m = s.doc.nodes.map;
            let spans = render::spans_of(m, doc::preorder(m, s.doc.root));
            &&& forall|i: int| #[trigger]
                render::first_span(spans, node, i) ==> {
                    let ps = seq![render::fragment_patch(spans[i], new_text)];
                    let (doc, result) = commit::commit_outcome::<ProseModel>(s.doc, ps);
                    &&& commit::commit_ready::<ProseModel>(s.doc, ps)
                    &&& result == Ok::<Seq<PatchView>, CommitErrorView>(
                        seq![edit_inverse(s.doc, node, new_text)],
                    )
                    &&& !s.doc.has_text(node, new_text) ==> doc == s.edited(node, new_text).doc
                }
            &&& editable(s.doc, node) <==> exists|i: int| #[trigger]
                render::first_span(spans, node, i)
            &&& (forall|i: int|
                0 <= i < spans.len() ==> (#[trigger] spans[i]).node != node) <==> !editable(
                s.doc,
                node,
            )
        }),
        editable(s.doc, node) ==> s.edited(node, new_text).valid(),
{
    let doc = s.doc;
    let m = doc.nodes.map;
    let root = doc.root;
    let ids = doc::preorder(m, root);
    let spans = render::spans_of(m, ids);
    let fuel = choose|f: nat| doc::bounded(m, root, f);
    doc::lemma_preorder(m, root, fuel);
    render::law_editable_nodes_have_spans(m, ids, node);
    assert forall|i: int| #[trigger] render::first_span(spans, node, i) implies {
        let ps = seq![render::fragment_patch(spans[i], new_text)];
        let (next, result) = commit::commit_outcome::<ProseModel>(doc, ps);
        &&& commit::commit_ready::<ProseModel>(doc, ps)
        &&& result == Ok::<Seq<PatchView>, CommitErrorView>(
            seq![edit_inverse(doc, node, new_text)],
        )
        &&& !doc.has_text(node, new_text) ==> next == s.edited(node, new_text).doc
    } by {
        render::law_spans_cover_whole_texts(m, ids, i);
        let k = choose|k: int| 0 <= k < ids.len() && ids[k] == node;
        outline::lemma_walk_exists(m, root, fuel, k);
        let p = render::fragment_patch(spans[i], new_text);
        render::law_fragment_edit_sets_the_text(doc, ids, node, new_text, i);
        render::lemma_commit_one(doc, p);
        let old_text = m[node].text;
        assert(old_text.len() <= usize::MAX) by {
            assert(m.dom().contains(node));
        }
        assert(old_text.subrange(0, old_text.len() as int) =~= old_text);
        assert(commit::inverse_patch(p, doc.applied(p.target, p.op)->Ok_0.1) == edit_inverse(
            doc,
            node,
            new_text,
        ));
    }
    if editable(doc, node) {
        let j = choose|j: int| 0 <= j < spans.len() && (#[trigger] spans[j]).node == node;
        render::lemma_some_first_span(spans, node, spans.len() as int);
        let i = choose|i: int| render::first_span(spans, node, i);
        assert(render::first_span(spans, node, i));
        if !doc.has_text(node, new_text) {
            let p = render::fragment_patch(spans[i], new_text);
            render::law_spans_cover_whole_texts(m, ids, i);
            let k = choose|k: int| 0 <= k < ids.len() && ids[k] == node;
            outline::lemma_walk_exists(m, root, fuel, k);
            let next = s.edited(node, new_text).doc;
            assert(tree::countable(next.nodes.map)) by {
                assert forall|k: Seq<char>| #[trigger] next.nodes.map.dom().contains(
                    k,
                ) implies next.nodes.map[k].text.len() <= usize::MAX
                    && next.nodes.map[k].children.len() <= usize::MAX by {
                    assert(m.dom().contains(k));
                }
            }
            render::lemma_commit_one(doc, p);
            lemma_one_patch(s, p);
            lemma_commit_valid(s, seq![p], Seq::empty(), Seq::empty());
            let after = s.after_commit(seq![p], Seq::empty(), Seq::empty());
            assert(after.undo == s.edited(node, new_text).undo);
            assert(after.doc == next);
        }
    } else {
        assert forall|i: int| !#[trigger] render::first_span(spans, node, i) by {
            if render::first_span(spans, node, i) {
                assert(spans[i].node == node);
            }
        }
    }
}

// ---------------------------------------------------------------- laws

/// One undo takes a whole commit back: the document has its earlier content, the undo stack is
/// what it was, and the same blocks are on show as in the document before.
pub proof fn law_undo_takes_back_the_last_commit(
    s: Session,
    ps: Seq<PatchView>,
    done: Seq<char>,
    failed: Seq<char>,
)
    requires
        s.valid(),
        patchset::topo(ps) is Ok ==> laws::stays_countable(s.doc, commit::ordered(ps), 0),
        s.room(2 * ps.len() as int),
        commit::commit_outcome::<ProseModel>(s.doc, ps).1 is Ok,
        s.after_commit(ps, done, failed).room(ps.len() as int),
    ensures
        ({
            let back = s.after_commit(ps, done, failed).undone();
            &&& back.doc.same_content(s.doc)
            &&& back.undo == s.undo
            &&& back.blocks == outline::shown(s.doc)
            &&& back.valid()
        }),
{
    lemma_commit_valid(s, ps, done, failed);
    let after = s.after_commit(ps, done, failed);
    laws::law_inverse_set_mirrors_the_run::<ProseModel>(s.doc, ps);
    laws::law_failed_commit_changes_nothing(s.doc, ps);
    assert(after.undo.last() == commit::commit_outcome::<ProseModel>(s.doc, ps).1->Ok_0);
    assert(after.undo.drop_last() =~= s.undo);
    laws::law_undo_restores(s.doc, ps, after.doc);
    lemma_undone(after);
}

/// An edit sets the text of its node and keeps its kind; every other node stays as it is.
pub proof fn law_edit_changes_one_text_only(s: Session, node: Seq<char>, new_text: Seq<char>, k: Seq<char>)
    requires
        s.valid(),
        s.doc.nodes.has(node),
        s.doc.nodes.map[node].text.len() > 0,
        !(s.doc.nodes.map[node].kind is Opaque),
        s.doc.nodes.has(k),
    ensures
        editable(s.doc, node),
        s.edited(node, new_text).doc.nodes.map[node].text == new_text,
        s.edited(node, new_text).doc.nodes.map[node].kind == s.doc.nodes.map[node].kind,
        k != node ==> s.edited(node, new_text).doc.nodes.map[k] == s.doc.nodes.map[k],
{
    law_texts_can_be_edited(s.doc, node);
}

} // verus!
