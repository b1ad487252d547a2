//! What the calls of an editing session give and leave.
use crate::ai;
use crate::ai::{AiChange, AiReply, AiRequest, ChangeView};
use crate::doc;
use crate::docx;
use crate::docx::{DocxBackend, DocxBlock, FakeBackend};
use crate::office::DocxOp;
use crate::ops;
use crate::ops::{NodeId, NodeKind};
use crate::outline;
use crate::outline::ViewBlock;
use crate::prose::ProseModel;
use crate::render::EditError;
use crate::review;
use crate::review::RequestView;
use crate::saving;
use crate::saving::SavePlan;
use crate::session;
use crate::session::{PolarisApp, Session};
use crate::text;
use vstd::prelude::*;

verus! {

// ---------------------------------------------------------------- starting

/// A new session has no file, nothing to undo, nothing to review and nothing that waits for a
/// confirmation.
pub proof fn law_new_session(app: PolarisApp)
    requires
        call_ensures(PolarisApp::new, (), app),
    ensures
        app@.loaded_path is None,
        app@.undo.len() == 0,
        app@.pending is None,
        app@.confirm_restore is None,
        app@.new_counter == 0,
        app@.doc_path.len() == 0,
        app@.status == "就绪"@,
        app@.blocks == outline::shown(app@.doc),
        forall|k: Seq<char>| !#[trigger] app@.para_map.has(k),
        forall|k: Seq<char>| !#[trigger] app@.original.has(k),
{
}

/// The sample document: a title, and two sections with a paragraph each, one after the other.
pub proof fn law_sample_document(m: ProseModel)
    requires
        call_ensures(session::sample_model, (), m),
    ensures
        ({
            let map = m@.nodes.map;
            &&& m@.root == "root"@
            &&& map["root"@].children == seq!["t"@, "s1"@, "p1"@, "s2"@, "p2"@]
            &&& map["t"@].kind == (NodeKind::Heading { level: 1 })
            &&& map["s1"@].kind == (NodeKind::Heading { level: 2 })
            &&& map["p1"@].kind is Paragraph
            &&& map["s2"@].kind == (NodeKind::Heading { level: 2 })
            &&& map["p2"@].kind is Paragraph
            &&& map["t"@].text == "Polaris 文档查看器"@
            &&& map["s1"@].text == "一、它是什么"@
            &&& map["s2"@].text == "二、现在能干嘛"@
        }),
{
    reveal_strlit("root");
    reveal_strlit("t");
    reveal_strlit("s1");
    reveal_strlit("p1");
    reveal_strlit("s2");
    reveal_strlit("p2");
    assert("root"@.len() == 4 && "t"@.len() == 1 && "s1"@.len() == 2);
    assert("s1"@[0] == 's' && "s2"@[0] == 's' && "p1"@[0] == 'p' && "p2"@[0] == 'p');
    assert("s1"@[1] == '1' && "s2"@[1] == '2' && "p1"@[1] == '1' && "p2"@[1] == '2');
    assert(m@.nodes.map["root"@].children =~= seq!["t"@, "s1"@, "p1"@, "s2"@, "p2"@]);
}

/// The document that is offered at the start is the one that was asked for; otherwise it is the one
/// in the downloads of the user, whose home comes first in the path.
pub proof fn law_document_at_the_start(wanted: Option<String>, home: Option<String>, r: String)
    requires
        call_ensures(session::default_doc_path, (wanted, home), r),
    ensures
        wanted matches Some(p) ==> r@ == p@,
        wanted is None ==> {
            let start = match home {
                Some(h) => h@,
                None => Seq::empty(),
            };
            r@ == start + "/Downloads/话术库.docx"@
        },
{
    if wanted is None && home is None {
        assert(r@ =~= Seq::<char>::empty() + "/Downloads/话术库.docx"@);
    }
}

/// The blocks on show are made anew from the document, and nothing else changes.
pub proof fn law_showing_anew(app: &mut PolarisApp)
    requires
        call_ensures(PolarisApp::rebuild_blocks, (app,), ()),
    ensures
        final(app)@.blocks == outline::shown(old(app)@.doc),
        final(app)@ == (Session { blocks: final(app)@.blocks, ..old(app)@ }),
{
}

/// Loading the blocks of a file makes it the file of the session, with nothing to undo, nothing to
/// save and nothing that waits for a confirmation; edits that wait for review, and what was said
/// last, stay.
pub proof fn law_loading_blocks(
    app: &mut PolarisApp,
    blocks: &Vec<DocxBlock>,
    path: &str,
    r: Result<(), String>,
)
    requires
        call_ensures(PolarisApp::load_blocks, (app, blocks, path), r),
    ensures
        r is Ok,
        final(app)@ == old(app)@.loaded(ops::seen(blocks@), path@),
        final(app)@.loaded_path == Some(path@),
        final(app)@.undo.len() == 0,
        final(app)@.confirm_restore is None,
        final(app)@.pending == old(app)@.pending,
        final(app)@.status == old(app)@.status,
        final(app)@.doc_path == old(app)@.doc_path,
        final(app)@.new_counter == old(app)@.new_counter,
        final(app)@.blocks == outline::shown(final(app)@.doc),
        !final(app)@.unsaved(),
{
}

/// What is said of an attempt to open a file; nothing but that changes.
pub proof fn law_reporting_an_opened_file(
    app: &mut PolarisApp,
    path: &str,
    result: Result<(), String>,
)
    requires
        call_ensures(PolarisApp::report_open, (app, path, result), ()),
    ensures
        final(app)@ == (Session { status: final(app)@.status, ..old(app)@ }),
        result matches Err(e) ==> final(app)@.status == "打开失败: "@ + e@,
        result is Ok ==> final(app)@.status == "已打开 "@ + path@ + "（"@ + text::decimal(
            old(app)@.blocks.len(),
        ) + " 块）"@,
{
}

// ---------------------------------------------------------------- opening files

/// Opening a file whose blocks are read makes it the file of the session, whatever was open before,
/// and says how many blocks it shows.
pub proof fn law_opening_a_file(app: &mut PolarisApp, backend: &FakeBackend, path: &str)
    requires
        call_ensures(PolarisApp::open_path::<FakeBackend>, (app, backend, path), ()),
    ensures
        final(app)@.loaded_path == Some(path@),
        final(app)@.undo.len() == 0,
        final(app)@.confirm_restore is None,
        final(app)@.doc == old(app)@.loaded(ops::seen(backend.blocks@), path@).doc,
        final(app)@.blocks == outline::shown(final(app)@.doc),
        final(app)@.original == outline::texts_of(final(app)@.blocks),
        final(app)@.para_map == old(app)@.loaded(ops::seen(backend.blocks@), path@).para_map,
        final(app)@.status == "已打开 "@ + path@ + "（"@ + text::decimal(final(app)@.blocks.len())
            + " 块）"@,
        final(app)@.pending == old(app)@.pending,
        final(app)@.doc_path == old(app)@.doc_path,
{
}

/// Loading from a source of blocks succeeds exactly if they can be read; if not, nothing changes.
pub proof fn law_loading_from_a_source<B: DocxBackend>(
    app: &mut PolarisApp,
    backend: &B,
    path: &str,
    r: Result<(), String>,
)
    requires
        call_ensures(PolarisApp::load_from_backend::<B>, (app, backend, path), r),
    ensures
        r is Err ==> final(app)@ == old(app)@,
        r is Ok ==> final(app)@.loaded_path == Some(path@) && final(app)@.undo.len() == 0
            && !final(app)@.unsaved() && final(app)@.pending == old(app)@.pending
            && final(app)@.status == old(app)@.status,
{
}

/// Importing blocks names their nodes by their places behind the children that the root has.
pub proof fn law_importing_blocks(
    model: &mut ProseModel,
    blocks: &[DocxBlock],
    r: Result<Vec<NodeId>, String>,
    i: int,
)
    requires
        call_ensures(docx::import_blocks, (model, blocks), r),
        old(model)@.nodes.has(old(model)@.root),
    ensures
        ({
            let base = old(model)@.nodes.map[old(model)@.root].children.len();
            let import = docx::import_from(old(model)@, ops::seen(blocks@), base, 0);
            &&& final(model)@ == import.0
            &&& r is Ok <==> import.1 is None
            &&& r matches Err(e) ==> import.1 == Some(e@)
            &&& r matches Ok(ids) ==> {
                &&& ids@.len() == blocks@.len()
                &&& 0 <= i < ids@.len() ==> ids@[i]@ == "docx:"@ + text::decimal((base + i) as nat)
            }
        }),
{
    if let Ok(ids) = r {
        assert(ops::seen(ids@).len() == ids@.len());
        if 0 <= i < ids@.len() {
            assert(ops::seen(ids@)[i] == ids@[i]@);
        }
    }
}

/// Importing a file is importing the blocks that are read from it.
pub proof fn law_importing_a_file(
    backend: &FakeBackend,
    path: &str,
    model: &mut ProseModel,
    r: Result<Vec<NodeId>, String>,
)
    requires
        call_ensures(docx::import_docx::<FakeBackend>, (backend, path, model), r),
        old(model)@.nodes.has(old(model)@.root),
    ensures
        ({
            let base = old(model)@.nodes.map[old(model)@.root].children.len();
            let import = docx::import_from(old(model)@, ops::seen(backend.blocks@), base, 0);
            &&& final(model)@ == import.0
            &&& r is Ok <==> import.1 is None
            &&& r matches Ok(ids) ==> ids@.len() == backend.blocks@.len()
        }),
{
    assert(ops::seen(backend.blocks@).len() == backend.blocks@.len());
    if let Ok(ids) = r {
        assert(ops::seen(ids@).len() == ids@.len());
        let read = choose|read: Result<Vec<DocxBlock>, String>| #[trigger]
            call_ensures(
                <FakeBackend as DocxBackend>::read_blocks,
                (backend, path),
                read,
            ) && read is Ok && ops::seen(ids@) == docx::docx_ids(
                docx::root_children(old(model)@),
                read->Ok_0@.len(),
            );
        assert(ops::seen(read->Ok_0@).len() == read->Ok_0@.len());
    }
}

// ---------------------------------------------------------------- editing

/// A block can be deleted unless it is opaque and no paragraph of the file stands behind it.
pub proof fn law_what_can_be_deleted(app: &PolarisApp, b: &ViewBlock, r: bool)
    requires
        call_ensures(PolarisApp::deletable, (app, b), r),
    ensures
        b.kind is Paragraph || b.kind is Heading ==> r,
        b.kind is Opaque ==> (r <==> app@.para_map.has(b.node@)),
{
}

/// Deleting a block is one commit, and what is said names the node.
pub proof fn law_deleting(app: &mut PolarisApp, node: &NodeId)
    requires
        call_ensures(PolarisApp::delete_block, (app, node), ()),
    ensures
        final(app)@ == old(app)@.after_commit(
            seq![session::delete_patch(node@)],
            "已删除 "@ + node@ + "（撤销可恢复）"@,
            "删除失败: "@,
        ),
{
}

/// A paragraph that is added at a place is put in there.
pub proof fn law_adding_at_a_place(app: &mut PolarisApp, index: usize)
    requires
        call_ensures(PolarisApp::insert_paragraph, (app, index), ()),
        old(app)@.new_counter < usize::MAX,
    ensures
        final(app)@ == old(app)@.paragraph_added(index),
        final(app)@.new_counter == old(app)@.new_counter + 1,
{
}

/// A paragraph that is added without a place comes last in the document.
pub proof fn law_adding(app: &mut PolarisApp)
    requires
        call_ensures(PolarisApp::add_paragraph, (app,), ()),
        old(app)@.doc.nodes.has(old(app)@.doc.root),
    ensures
        final(app)@ == old(app)@.paragraph_added(
            old(app)@.doc.nodes.map[old(app)@.doc.root].children.len() as usize,
        ),
{
}

/// A paragraph that is added behind a node is put in at the place behind it.
pub proof fn law_adding_behind(app: &mut PolarisApp, node: &NodeId)
    requires
        call_ensures(PolarisApp::add_paragraph_after, (app, node), ()),
    ensures
        final(app)@ == old(app)@.paragraph_added(
            session::place_after(old(app)@.doc, node@) as usize,
        ),
{
}

/// Editing a block: a text that the block has already changes nothing; a node that cannot be edited
/// is refused and nothing changes; otherwise the block has the new text, and it can be undone.
pub proof fn law_editing(
    app: &mut PolarisApp,
    node: &NodeId,
    new_text: &str,
    r: Result<(), EditError>,
    k: Seq<char>,
)
    requires
        call_ensures(PolarisApp::commit_edit, (app, node, new_text), r),
    ensures
        old(app)@.doc.nodes.has(node@) && old(app)@.doc.nodes.map[node@].text == new_text@ ==> r is Ok
            && final(app)@ == old(app)@,
        r is Err ==> final(app)@ == old(app)@ && !session::editable(old(app)@.doc, node@) && (
        r->Err_0 matches EditError::NoSpan(n) && n@ == node@),
        r is Ok && final(app)@ != old(app)@ ==> {
            &&& session::editable(old(app)@.doc, node@)
            &&& final(app)@.doc.nodes.map[node@].text == new_text@
            &&& final(app)@.doc.nodes.map[node@].kind == old(app)@.doc.nodes.map[node@].kind
            &&& final(app)@.doc.nodes.map[node@].children
                == old(app)@.doc.nodes.map[node@].children
            &&& k != node@ ==> final(app)@.doc.nodes.map[k] == old(app)@.doc.nodes.map[k]
            &&& final(app)@.undo.len() == old(app)@.undo.len() + 1
            &&& final(app)@.undo.drop_last() == old(app)@.undo
            &&& final(app)@.blocks == old(app)@.blocks
            &&& final(app)@.pending == old(app)@.pending
        },
{
    let a = old(app)@;
    let b = final(app)@;
    if r is Ok && b != a {
        assert(b.undo.drop_last() =~= a.undo);
    }
}

/// Undoing takes the last entry off the stack; where there is none, nothing changes but what is said.
pub proof fn law_undoing_a_step(app: &mut PolarisApp)
    requires
        call_ensures(PolarisApp::undo_last, (app,), ()),
    ensures
        final(app)@ == old(app)@.undone(),
        old(app)@.undo.len() == 0 ==> final(app)@ == (Session {
            status: "没有可撤销的编辑"@,
            ..old(app)@
        }),
        old(app)@.undo.len() > 0 ==> {
            &&& final(app)@.undo == old(app)@.undo.drop_last()
            &&& final(app)@.blocks == outline::shown(final(app)@.doc)
            &&& final(app)@.status == "已撤销（撤销栈 "@ + text::decimal(
                (old(app)@.undo.len() - 1) as nat,
            ) + "）"@
            &&& final(app)@.pending == old(app)@.pending
            &&& final(app)@.original == old(app)@.original
            &&& final(app)@.para_map == old(app)@.para_map
            &&& final(app)@.new_counter == old(app)@.new_counter
        },
{
}

// ---------------------------------------------------------------- proposals

/// While a request is under way none is made. Otherwise a request to rewrite a node is for its
/// present text, and is made if and only if the node is there. Nothing changes but what is said.
pub proof fn law_asking_for_a_rewrite(
    app: &mut PolarisApp,
    busy: bool,
    node: &NodeId,
    r: Option<(AiRequest, String)>,
)
    requires
        call_ensures(PolarisApp::start_ai_request, (app, busy, node), r),
    ensures
        final(app)@ == (Session { status: final(app)@.status, ..old(app)@ }),
        r is Some <==> !busy && old(app)@.doc.nodes.has(node@),
        r matches Some((request, prompt)) ==> request@ == (RequestView::Single {
            node: node@,
            old: old(app)@.doc.nodes.map[node@].text,
        }) && prompt@ == ai::REWRITE_TASK@ + old(app)@.doc.nodes.map[node@].text
            && final(app)@.status == "AI 改写中…（"@ + node@ + "，约十秒）"@,
        busy ==> final(app)@.status == "已有一个 AI 请求在路上，等它回来"@,
        !busy && r is None ==> final(app)@.status == node@ + " 不存在，无法发起 AI 提案"@,
{
}

/// A request to clean the document is made unless one is under way or there is nothing to clean.
/// Nothing changes but what is said.
pub proof fn law_asking_to_clean(
    app: &mut PolarisApp,
    busy: bool,
    r: Option<(AiRequest, String)>,
)
    requires
        call_ensures(PolarisApp::start_ai_clean_all, (app, busy), r),
    ensures
        final(app)@ == (Session { status: final(app)@.status, ..old(app)@ }),
        busy ==> r is None && final(app)@.status == "已有一个 AI 请求在路上，等它回来"@,
        !busy && r is None ==> final(app)@.status == "没有可清理的段落"@,
        r matches Some((request, prompt)) ==> {
            let all = review::segments(outline::shown(old(app)@.doc));
            &&& request@ matches RequestView::CleanAll { olds }
            &&& 0 < olds.len() <= 100
            &&& olds == all.take(olds.len() as int)
            &&& prompt@ == ai::CLEAN_TASK@ + ai::segment_lines(olds, olds.len() as int)
            &&& final(app)@.status == "AI 清理全文中…（"@ + text::decimal(olds.len())
                + " 段，可能要一两分钟）"@ + if all.len() > 100 {
                "（超长截断，"@ + text::decimal((all.len() - 100) as nat) + " 段未送审）"@
            } else {
                Seq::empty()
            }
        },
{
    let all = review::segments(outline::shown(old(app)@.doc));
    assert(all.take(all.len() as int) =~= all);
}

/// A new edit takes the place of an earlier one of the same node and stands last; the others keep
/// their order, and the number of edits that wait is told.
pub proof fn law_adding_an_edit(app: &mut PolarisApp, change: AiChange, n: usize)
    requires
        call_ensures(PolarisApp::merge_change, (app, change), n),
    ensures
        ({
            let was = review::waiting(old(app)@.pending);
            let now = review::waiting(final(app)@.pending);
            &&& final(app)@.pending is Some
            &&& final(app)@ == (Session { pending: final(app)@.pending, ..old(app)@ })
            &&& n == now.len()
            &&& now.len() > 0 && now.last() == change@
            &&& now.drop_last() == was.filter(|c: ChangeView| c.node != change@.node)
        }),
{
    let was = review::waiting(old(app)@.pending);
    let kept = was.filter(|c: ChangeView| c.node != change@.node);
    assert(kept.push(change@).drop_last() =~= kept);
}

/// An edit can still be accepted if its node has the text that it starts from.
pub proof fn law_whether_an_edit_is_valid(app: &PolarisApp, c: &AiChange, r: bool)
    requires
        call_ensures(PolarisApp::change_valid, (app, c), r),
    ensures
        r <==> app@.doc.nodes.has(c@.node) && app@.doc.nodes.map[c@.node].text == c@.old,
{
}

/// The tick is taken from edits whose node was changed meanwhile. Edits that are still valid keep
/// their ticks, none gets one, none goes away, and nothing else changes.
pub proof fn law_unticking(app: &mut PolarisApp, r: Vec<bool>, i: int)
    requires
        call_ensures(PolarisApp::untick_stale, (app,), r),
    ensures
        ({
            let was = review::waiting(old(app)@.pending);
            let now = review::waiting(final(app)@.pending);
            let doc = old(app)@.doc;
            &&& final(app)@ == (Session { pending: final(app)@.pending, ..old(app)@ })
            &&& final(app)@.pending is Some <==> old(app)@.pending is Some
            &&& now.len() == was.len() && r@.len() == was.len()
            &&& 0 <= i < was.len() ==> {
                let valid = doc.nodes.has(was[i].node) && doc.nodes.map[was[i].node].text
                    == was[i].old;
                &&& r@[i] == valid
                &&& now[i].node == was[i].node && now[i].old == was[i].old && now[i].new
                    == was[i].new
                &&& now[i].selected <==> was[i].selected && valid
            }
        }),
{
}

/// Rejecting throws away all edits that wait, says how many, and leaves the document and everything
/// else alone.
pub proof fn law_rejecting(app: &mut PolarisApp)
    requires
        call_ensures(PolarisApp::reject_ai, (app,), ()),
    ensures
        final(app)@.pending is None,
        final(app)@ == (Session {
            pending: final(app)@.pending,
            status: final(app)@.status,
            ..old(app)@
        }),
        old(app)@.pending is None ==> final(app)@.status == old(app)@.status,
        old(app)@.pending matches Some(changes) ==> final(app)@.status == "已拒绝全部 "@
            + text::decimal(changes.len()) + " 条 AI 提案，模型未动"@,
{
}

/// After accepting, nothing waits for review.
pub proof fn law_accepting(app: &mut PolarisApp)
    requires
        call_ensures(PolarisApp::accept_ai, (app,), ()),
    ensures
        final(app)@ == old(app)@.accepted(),
        final(app)@.pending is None,
        old(app)@.pending is None ==> final(app)@ == old(app)@,
        final(app)@.original == old(app)@.original,
        final(app)@.para_map == old(app)@.para_map,
        final(app)@.loaded_path == old(app)@.loaded_path,
        final(app)@.new_counter == old(app)@.new_counter,
{
}

/// What becomes of one edit when the edits are accepted: it is written if it is ticked, its node still
/// has the text that it starts from, that text is not empty and the node is not opaque; otherwise
/// its node stays as it is.
pub proof fn law_accepting_an_edit(app: &mut PolarisApp, i: int)
    requires
        call_ensures(PolarisApp::accept_ai, (app,), ()),
        old(app)@.valid(),
        old(app)@.room(2 * review::waiting(old(app)@.pending).len() as int),
        forall|j: int|
            0 <= j < review::waiting(old(app)@.pending).len() ==> (#[trigger] review::waiting(
                old(app)@.pending,
            )[j]).new.len() <= usize::MAX,
        0 <= i < review::waiting(old(app)@.pending).len(),
    ensures
        ({
            let c = review::waiting(old(app)@.pending)[i];
            let was = old(app)@.doc.nodes.map[c.node];
            let now = final(app)@.doc.nodes.map[c.node];
            &&& final(app)@.doc.nodes.has(c.node) <==> old(app)@.doc.nodes.has(c.node)
            &&& old(app)@.doc.nodes.has(c.node) ==> {
                &&& now.kind == was.kind
                &&& now.children == was.children
                &&& now.text == if c.selected && was.text == c.old && c.old.len() > 0 && !(
                was.kind is Opaque) {
                    c.new
                } else {
                    was.text
                }
            }
        }),
{
    let s = old(app)@;
    let changes = review::waiting(s.pending);
    let c = changes[i];
    review::law_accept_does_what_was_ticked(s, c.node);
    assert forall|j: int| 0 <= j < changes.len() && (#[trigger] changes[j]).node == c.node implies j
        == i by {
        if j < i {
            assert(changes[j].node != changes[i].node);
        } else if i < j {
            assert(changes[i].node != changes[j].node);
        }
    }
}

/// What is counted when edits are accepted: those that are ticked and can be written, and those that
/// are ticked and cannot.
pub proof fn law_counting_edits(doc: doc::Doc, changes: Seq<ChangeView>, c: ChangeView)
    requires
        doc.sound(),
    ensures
        ({
            let n = changes.len() as int;
            let more = changes.push(c);
            let can = doc.nodes.has(c.node) && doc.nodes.map[c.node].text == c.old && c.old.len() > 0
                && !(doc.nodes.map[c.node].kind is Opaque);
            &&& review::stale(doc, more, n + 1) == review::stale(doc, changes, n) + if c.selected
                && !can {
                1int
            } else {
                0int
            }
            &&& review::picks(doc, more, n + 1).len() == review::picks(doc, changes, n).len() + if
            c.selected && can {
                1int
            } else {
                0int
            }
        }),
        review::stale(doc, changes, 0) == 0,
        review::picks(doc, changes, 0).len() == 0,
{
    let n = changes.len() as int;
    lemma_counts(doc, changes, c, n);
    if doc.nodes.has(c.node) {
        session::law_texts_can_be_edited(doc, c.node);
    }
}

proof fn lemma_counts(doc: doc::Doc, changes: Seq<ChangeView>, c: ChangeView, n: int)
    requires
        n <= changes.len(),
    ensures
        review::stale(doc, changes.push(c), n) == review::stale(doc, changes, n),
        review::picks(doc, changes.push(c), n) == review::picks(doc, changes, n),
    decreases n,
{
    if n > 0 {
        lemma_counts(doc, changes, c, n - 1);
        assert(changes.push(c)[n - 1] == changes[n - 1]);
    }
}

/// What is said when edits were accepted: how many were written, and how many could not be.
pub proof fn law_saying_what_was_accepted(s: Session)
    requires
        s.valid(),
        s.room(2 * review::waiting(s.pending).len() as int),
        s.pending is Some,
        forall|i: int|
            0 <= i < review::waiting(s.pending).len() ==> (#[trigger] review::waiting(
                s.pending,
            )[i]).new.len() <= usize::MAX,
    ensures
        ({
            let changes = s.pending->Some_0;
            let n = changes.len() as int;
            let done = review::picks(s.doc, changes, n).len();
            let lost = review::stale(s.doc, changes, n);
            let said = s.accepted().status;
            &&& done == 0 ==> said == "没有可提交的 AI 改动（共 "@ + text::decimal(n as nat)
                + " 条，失效 "@ + text::decimal(lost) + " 条），未提交"@
            &&& done > 0 && lost == 0 ==> said == "已接受 "@ + text::decimal(done)
                + " 条 AI 改动（一次撤销可整组回）"@
            &&& done > 0 && lost > 0 ==> said == "已接受 "@ + text::decimal(done)
                + " 条 AI 改动（一次撤销可整组回）"@ + ("；"@ + text::decimal(lost)
                + " 条已失效跳过"@)
        }),
{
    let changes = s.pending->Some_0;
    let ps = s.accepted_set();
    review::lemma_accepted_rewrites(s);
    review::lemma_rewrites_commit(s.doc, ps);
    let head = "已接受 "@ + text::decimal(ps.len()) + " 条 AI 改动（一次撤销可整组回）"@;
    assert(head + Seq::<char>::empty() =~= head);
}

/// What is said of a reply with a rewritten text.
pub proof fn law_saying_what_came_back(s: Session, node: Seq<char>, was: Seq<char>, raw: Seq<char>)
    ensures
        ({
            let t = s.received(RequestView::Single { node, old: was }, Ok(raw));
            let new = ai::reply_text(raw);
            let there = s.doc.nodes.has(node) && s.doc.nodes.map[node].text == was;
            &&& new.len() == 0 ==> t.status == "模型返回为空"@
            &&& new.len() > 0 && !there ==> t.status == node + " 在 AI 思考期间被改过，该条作废"@
            &&& new.len() > 0 && there && new == was ==> t.status == "AI 对 "@ + node
                + " 无改动建议"@
            &&& new.len() > 0 && there && new != was ==> t.status == "AI 提案待 review：共 "@
                + text::decimal(t.pending->Some_0.len()) + " 条（在对照面板勾选接受/拒绝）"@
        }),
{
}

/// What is said of a reply with cleaned texts: how many edits wait now, how many came too late, and
/// how many items were no edits.
pub proof fn law_saying_what_was_cleaned(s: Session, cs: Seq<ChangeView>, dropped: nat)
    ensures
        ({
            let t = s.proposed(cs, dropped);
            let late = (cs.len() - review::still_fresh(s.doc, cs).len()) as nat;
            let of_late = if late > 0 {
                "；"@ + text::decimal(late) + " 条在 AI 思考期间被改过，已作废"@
            } else {
                Seq::empty()
            };
            let of_dropped = if dropped > 0 {
                "；丢弃无效项 "@ + text::decimal(dropped) + " 条"@
            } else {
                Seq::empty()
            };
            &&& cs.len() == 0 ==> t.status == "AI 认为全文无需清理（丢弃无效项 "@ + text::decimal(
                dropped,
            ) + " 条）"@
            &&& cs.len() > 0 && late == cs.len() ==> t.status == "AI 清理建议全部作废"@ + of_late
                + of_dropped
            &&& cs.len() > 0 && late < cs.len() ==> t.status == "AI 清理建议待 review：共 "@
                + text::decimal(t.pending->Some_0.len()) + " 条"@ + of_late + of_dropped
        }),
{
    let doc = s.doc;
    lemma_kept_are_fewer(cs, |c: ChangeView| doc.has_text(c.node, c.old));
}

proof fn lemma_kept_are_fewer(cs: Seq<ChangeView>, keep: spec_fn(ChangeView) -> bool)
    ensures
        cs.filter(keep).len() <= cs.len(),
    decreases cs.len(),
{
    reveal(Seq::filter);
    if cs.len() > 0 {
        lemma_kept_are_fewer(cs.drop_last(), keep);
    }
}

/// Edits that are proposed, and what is sent to be cleaned.
pub proof fn law_proposing(
    app: &mut PolarisApp,
    changes: Vec<AiChange>,
    dropped: usize,
    other: &PolarisApp,
    targets: (Vec<(NodeId, String)>, usize),
)
    requires
        call_ensures(PolarisApp::propose, (app, changes, dropped), ()),
        call_ensures(PolarisApp::clean_targets, (other,), targets),
    ensures
        final(app)@ == old(app)@.proposed(ops::seen(changes@), dropped as nat),
        ({
            let all = review::segments(outline::shown(other@.doc));
            &&& ops::seen(targets.0@) == review::first_segments(all)
            &&& targets.0@.len() + targets.1 == all.len()
        }),
{
    assert(ops::seen(targets.0@).len() == targets.0@.len());
}

/// A reply that is an error changes nothing but what is said.
pub proof fn law_receiving(app: &mut PolarisApp, reply: AiReply)
    requires
        call_ensures(PolarisApp::receive_ai_result, (app, reply), ()),
    ensures
        final(app)@ == old(app)@.received(
            reply.request@,
            match reply.result {
                Ok(raw) => Ok(raw@),
                Err(e) => Err(e@),
            },
        ),
        reply.result matches Err(e) ==> final(app)@ == (Session {
            status: "AI 调用失败: "@ + e@,
            ..old(app)@
        }),
{
}

// ---------------------------------------------------------------- saving

/// Going back to a version needs one click if nothing would be lost. Otherwise the first click is
/// refused and remembers the version, a second one on the same version is granted, and one on
/// another version is refused again. Either way the document stays as it is.
pub proof fn law_confirming_a_restore(app: &mut PolarisApp, version: &str, r: bool)
    requires
        call_ensures(PolarisApp::approve_restore, (app, version), r),
    ensures
        !old(app)@.unsaved() ==> r,
        old(app)@.unsaved() && old(app)@.confirm_restore is None ==> !r,
        old(app)@.unsaved() && old(app)@.confirm_restore == Some(version@) ==> r,
        old(app)@.unsaved() && old(app)@.confirm_restore != Some(version@) ==> !r,
        r ==> final(app)@.confirm_restore is None && final(app)@.status == old(app)@.status,
        !r ==> final(app)@.confirm_restore == Some(version@) && final(app)@.status
            == "有未保存改动，回版会丢弃它们——再点一次该版本确认。"@,
        final(app)@ == (Session {
            confirm_restore: final(app)@.confirm_restore,
            status: final(app)@.status,
            ..old(app)@
        }),
{
}

/// Two clicks on one version are always enough.
pub proof fn law_two_clicks_restore(
    app: &mut PolarisApp,
    again: &mut PolarisApp,
    version: &str,
    first: bool,
    second: bool,
)
    requires
        call_ensures(PolarisApp::approve_restore, (app, version), first),
        call_ensures(PolarisApp::approve_restore, (again, version), second),
        old(again)@ == final(app)@,
    ensures
        first || second,
{
}

/// Saving needs a file. With no change that can be written nothing is written; otherwise all changes
/// go to the file of the session, and it is loaded again exactly if some paragraph is removed or
/// added.
pub proof fn law_planning_a_save(app: &PolarisApp, r: Result<SavePlan, String>)
    requires
        call_ensures(PolarisApp::plan_save, (app,), r),
    ensures
        r is Err <==> app@.loaded_path is None,
        r matches Err(e) ==> e@ == "先「打开 docx」再保存"@,
        r is Ok && app@.pending_list().len() == 0 <==> (r matches Ok(SavePlan::Nothing(s))),
        r matches Ok(SavePlan::Nothing(s)) ==> s@ == if app@.skipped() == 0 {
            "无改动可保存"@
        } else {
            "没有可写回的改动"@ + ("；另有 "@ + text::decimal(app@.skipped())
                + " 处改动无法写回（未结构化块/缺 paraId），已跳过"@)
        },
        r matches Ok(SavePlan::Write { file, ops, structural, note }) ==> {
            &&& app@.loaded_path == Some(file@)
            &&& ops@.len() == app@.pending_list().len()
            &&& forall|i: int|
                0 <= i < ops@.len() ==> (#[trigger] ops@[i])@ == app@.pending_list()[i]
            &&& structural <==> exists|i: int|
                0 <= i < ops@.len() && !((#[trigger] ops@[i]) is SetText)
            &&& note@ == "已保存 "@ + text::decimal(ops@.len()) + " 处改动 → "@ + file@
                + "（旧版已入历史）"@ + if app@.skipped() == 0 {
                Seq::empty()
            } else {
                "；另有 "@ + text::decimal(app@.skipped())
                    + " 处改动无法写回（未结构化块/缺 paraId），已跳过"@
            }
        },
{
    if let Ok(SavePlan::Write { file, ops, structural, note }) = r {
        let list = app@.pending_list();
        assert(ops::seen(ops@).len() == ops@.len());
        assert forall|i: int| 0 <= i < ops@.len() implies (#[trigger] ops@[i])@ == list[i] by {
            assert(ops::seen(ops@)[i] == ops@[i]@);
        }
    }
}

/// What is written back, and whether there is something that was not saved.
pub proof fn law_listing_changes(app: &PolarisApp, r: (Vec<DocxOp>, usize), dirty: bool)
    requires
        call_ensures(PolarisApp::pending_ops, (app,), r),
        call_ensures(PolarisApp::has_unsaved_changes, (app,), dirty),
    ensures
        ops::seen(r.0@) == app@.pending_list(),
        r.1 == app@.skipped(),
        dirty == app@.unsaved(),
{
}

/// Once the texts are saved, those on show count as the texts of the file; nothing else changes.
pub proof fn law_texts_are_saved(app: &mut PolarisApp)
    requires
        call_ensures(PolarisApp::texts_saved, (app,), ()),
    ensures
        final(app)@.original == outline::texts_of(old(app)@.blocks),
        final(app)@ == (Session { original: final(app)@.original, ..old(app)@ }),
{
}

/// What is said of an attempt to go back to a version.
pub proof fn law_reporting_a_restore(result: Result<bool, String>, when: &str, r: String)
    requires
        call_ensures(saving::restore_note, (result, when), r),
    ensures
        result matches Ok(stored) ==> r@ == "已回到 "@ + when@ + if stored {
            " 的版本（回版前状态已留底）"@
        } else {
            " 的版本（当前状态已在历史中，未重复留底）"@
        },
        result matches Err(e) ==> r@ == "回版失败: "@ + e@,
{
}

/// A moment without a local time is shown as its number.
pub proof fn law_labels_of_moments(local: Option<String>, millis: u64, r: String)
    requires
        call_ensures(saving::time_label, (local, millis), r),
    ensures
        local matches Some(s) ==> r@ == s@,
        local is None ==> r@ == text::decimal(millis as nat),
{
}

} // verus!
