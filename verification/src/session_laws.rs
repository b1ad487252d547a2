//! What the steps of an editing session do to the document, and what is written back to the file.
use crate::commit;
use crate::doc;
use crate::doc::Doc;
use crate::office::DocxOpView;
use crate::op_laws;
use crate::ops::{NodeKind, OpView};
use crate::outline;
use crate::outline::ShownBlock;
use crate::prose::ProseModel;
use crate::render;
use crate::saving;
use crate::saving::AddScan;
use crate::session;
use crate::session::Session;
use crate::text;
use crate::textmap::Dict;
use crate::tree;
use vstd::prelude::*;

verus! {

// ---------------------------------------------------------------- editing

/// The session has one entry more to undo, shows the blocks of its document, and says this.
pub open spec fn committed(s: Session, t: Session, said: Seq<char>) -> bool {
    &&& t.undo.len() == s.undo.len() + 1
    &&& t.undo.drop_last() == s.undo
    &&& t.blocks == outline::shown(t.doc)
    &&& t.status == said
    &&& t.original == s.original
    &&& t.para_map == s.para_map
    &&& t.body_anchor == s.body_anchor
    &&& t.image_map == s.image_map
    &&& t.loaded_path == s.loaded_path
    &&& t.pending == s.pending
}

/// Nothing but the status has changed.
pub open spec fn unchanged(s: Session, t: Session) -> bool {
    t == (Session { status: t.status, ..s })
}

/// Deleting a block: its node is gone with all that stands below it, and nothing else is; the other
/// children of its parent keep their order. The root, or a node that is not there, is not deleted,
/// and then nothing changes but the status.
pub proof fn law_deleting_a_block(
    s: Session,
    node: Seq<char>,
    said: Seq<char>,
    failed: Seq<char>,
    parent: Seq<char>,
    index: int,
    k: Seq<char>,
)
    requires
        s.valid(),
    ensures
        ({
            let t = s.after_commit(seq![session::delete_patch(node)], said, failed);
            let m = s.doc.nodes.map;
            if m.dom().contains(node) && node != s.doc.root {
                &&& committed(s, t, said)
                &&& t.doc.nodes.map.dom().contains(k) <==> m.dom().contains(k)
                    && !op_laws::at_or_below(s.doc, node, k)
                &&& tree::lists(m, parent, index, node) ==> op_laws::put_in(
                    t.doc.nodes.map[parent].children,
                    m[parent].children,
                    index,
                    node,
                )
                &&& tree::lists(m, parent, index, node) && k != parent
                    && t.doc.nodes.map.dom().contains(k) ==> t.doc.nodes.map[k] == m[k]
            } else {
                unchanged(s, t)
            }
        }),
{
    let p = session::delete_patch(node);
    render::lemma_commit_one(s.doc, p);
    op_laws::law_remove_node(s.doc, node, node, parent, index, k);
    let t = s.after_commit(seq![p], said, failed);
    if t.undo.len() == s.undo.len() + 1 {
        assert(t.undo.drop_last() =~= s.undo);
    }
    if s.doc.nodes.map.dom().contains(node) && node != s.doc.root {
        assert(s.doc.applied(node, OpView::RemoveNode { id: node }) is Ok) by {
            match s.doc.applied(node, OpView::RemoveNode { id: node }) {
                Ok(_) => {},
                Err(e) => {},
            }
        }
    } else {
        op_laws::law_remove_node(s.doc, node, node, parent, index, s.doc.root);
    }
}

/// Adding a paragraph: a new paragraph with the text `新段落` becomes child number `index` of the
/// root, for every index up to the number of children, under the id `new:` and the counter, which
/// goes up by one. Every other node stays. If the id is taken or the index lies beyond the end,
/// nothing changes but counter and status.
pub proof fn law_adding_a_paragraph(s: Session, index: usize, k: Seq<char>)
    requires
        s.valid(),
        s.new_counter < usize::MAX,
    ensures
        ({
            let t = s.paragraph_added(index);
            let m = s.doc.nodes.map;
            let n = t.doc.nodes.map;
            let id = "new:"@ + text::decimal(s.new_counter as nat);
            let was = m[s.doc.root].children;
            &&& t.new_counter == s.new_counter + 1
            &&& if !m.dom().contains(id) && index <= was.len() {
                &&& committed(s, t, "已加段落（撤销可移除）"@)
                &&& op_laws::put_in(was, n[s.doc.root].children, index as int, id)
                &&& n[id].kind == NodeKind::Paragraph
                &&& n[id].text == "新段落"@
                &&& n[id].children.len() == 0
                &&& n.dom().contains(k) <==> k == id || m.dom().contains(k)
                &&& k != s.doc.root && m.dom().contains(k) ==> n[k] == m[k]
            } else {
                unchanged(Session { new_counter: t.new_counter, ..s }, t)
            }
        }),
{
    let root = s.doc.root;
    let p = session::add_patch(s.doc, s.new_counter as nat, index);
    let id = "new:"@ + text::decimal(s.new_counter as nat);
    render::lemma_commit_one(s.doc, p);
    op_laws::law_insert_section(s.doc, root, root, index, id, "新段落"@);
    let t = s.paragraph_added(index);
    if t.undo.len() == s.undo.len() + 1 {
        assert(t.undo.drop_last() =~= s.undo);
    }
}

/// Where a paragraph is added after a block: right behind the block among the children of the root;
/// at the end if the block is not among them.
pub proof fn law_place_of_an_added_paragraph(doc: Doc, node: Seq<char>, i: int)
    requires
        doc.sound(),
    ensures
        ({
            let children = doc.nodes.map[doc.root].children;
            &&& 0 <= i < children.len() && children[i] == node ==> session::place_after(doc, node)
                == i + 1
            &&& !children.contains(node) ==> session::place_after(doc, node) == children.len()
        }),
{
    let m = doc.nodes.map;
    let ids = m[doc.root].children;
    if 0 <= i < ids.len() && ids[i] == node {
        assert forall|j: int| 0 <= j < i implies #[trigger] ids[j] != node by {
            if ids[j] == node {
                assert(tree::lists(m, doc.root, j, node) && tree::lists(m, doc.root, i, node));
            }
        }
        assert(doc::first_at(ids, node, i));
        let c = choose|c: int| doc::first_at(ids, node, c);
        if c < i {
            assert(ids[c] != node);
        } else if i < c {
            assert(ids[i] != node);
        }
    }
}

/// Editing a block: its node has the new text and keeps its kind and its children; every other node
/// stays; and there is one entry more to undo. Where the text is the same nothing happens at all.
pub proof fn law_editing_a_block(s: Session, node: Seq<char>, new_text: Seq<char>, k: Seq<char>)
    requires
        s.valid(),
        s.doc.nodes.has(node),
    ensures
        ({
            let t = s.edited(node, new_text);
            let m = s.doc.nodes.map;
            let n = t.doc.nodes.map;
            &&& m[node].text == new_text ==> t == s
            &&& m[node].text != new_text ==> {
                &&& n[node].text == new_text
                &&& n[node].kind == m[node].kind
                &&& n[node].children == m[node].children
                &&& n.dom().contains(k) <==> m.dom().contains(k)
                &&& k != node && m.dom().contains(k) ==> n[k] == m[k]
                &&& t.undo.len() == s.undo.len() + 1
                &&& t.undo.drop_last() == s.undo
                &&& t.blocks == s.blocks
                &&& t.original == s.original
                &&& t.para_map == s.para_map
                &&& t.body_anchor == s.body_anchor
                &&& t.pending == s.pending
            }
        }),
{
    let t = s.edited(node, new_text);
    if s.doc.nodes.map[node].text != new_text {
        assert(t.undo.drop_last() =~= s.undo);
    }
}

/// Undoing: the last entry is taken off the stack and run, and the blocks of the document are shown.
/// With nothing to undo nothing changes but the status.
pub proof fn law_undoing(s: Session)
    ensures
        ({
            let t = s.undone();
            &&& s.undo.len() == 0 ==> unchanged(s, t)
            &&& s.undo.len() > 0 ==> {
                &&& t.doc == commit::undo_outcome::<ProseModel>(s.doc, s.undo.last()).0
                &&& t.undo == s.undo.drop_last()
                &&& t.blocks == outline::shown(t.doc)
                &&& t.original == s.original
                &&& t.para_map == s.para_map
                &&& t.body_anchor == s.body_anchor
                &&& t.pending == s.pending
                &&& t.loaded_path == s.loaded_path
            }
        }),
{
}

// ---------------------------------------------------------------- what is written back

/// Changed texts: a block whose text is not the one that its node was loaded with is a change. With
/// an identity it becomes one op more, which finds the old text in the paragraph of that identity and
/// puts the new one there; without one it is counted. A block that is not changed, or was not loaded,
/// adds nothing.
pub proof fn law_changed_texts(
    blocks: Seq<ShownBlock>,
    b: ShownBlock,
    original: Dict<Seq<char>>,
    para: Dict<Seq<char>>,
)
    ensures
        ({
            let n = blocks.len() as int;
            let was = saving::set_ops(blocks, original, para, n);
            let now = saving::set_ops(blocks.push(b), original, para, n + 1);
            let lost = saving::set_skips(blocks, original, para, n);
            let lost_now = saving::set_skips(blocks.push(b), original, para, n + 1);
            if original.map.dom().contains(b.node) && original.map[b.node] != b.text {
                if para.map.dom().contains(b.node) {
                    &&& now == was.push(
                        DocxOpView::SetText {
                            path: "/body/p[@paraId="@ + para.map[b.node] + "]"@,
                            find: original.map[b.node],
                            replace: b.text,
                        },
                    )
                    &&& lost_now == lost
                } else {
                    now == was && lost_now == lost + 1
                }
            } else {
                now == was && lost_now == lost
            }
        }),
        saving::set_ops(blocks, original, para, 0).len() == 0,
        saving::set_skips(blocks, original, para, 0) == 0,
{
    lemma_sets_prefix(blocks, b, original, para, blocks.len() as int);
}

proof fn lemma_sets_prefix(
    blocks: Seq<ShownBlock>,
    b: ShownBlock,
    original: Dict<Seq<char>>,
    para: Dict<Seq<char>>,
    n: int,
)
    requires
        n <= blocks.len(),
    ensures
        saving::set_ops(blocks.push(b), original, para, n) == saving::set_ops(
            blocks,
            original,
            para,
            n,
        ),
        saving::set_skips(blocks.push(b), original, para, n) == saving::set_skips(
            blocks,
            original,
            para,
            n,
        ),
    decreases n,
{
    if n > 0 {
        lemma_sets_prefix(blocks, b, original, para, n - 1);
    }
}

/// Removed paragraphs: a loaded node that no block shows is gone. With an identity it becomes one op
/// more, which removes the paragraph of that identity; without one it is counted. A node that is on
/// show adds nothing.
pub proof fn law_removed_paragraphs(
    loaded: Seq<Seq<char>>,
    node: Seq<char>,
    blocks: Seq<ShownBlock>,
    para: Dict<Seq<char>>,
)
    ensures
        ({
            let n = loaded.len() as int;
            let was = saving::remove_ops(loaded, blocks, para, n);
            let now = saving::remove_ops(loaded.push(node), blocks, para, n + 1);
            let lost = saving::remove_skips(loaded, blocks, para, n);
            let lost_now = saving::remove_skips(loaded.push(node), blocks, para, n + 1);
            if forall|i: int| 0 <= i < blocks.len() ==> (#[trigger] blocks[i]).node != node {
                if para.map.dom().contains(node) {
                    &&& now == was.push(
                        DocxOpView::Remove { path: "/body/p[@paraId="@ + para.map[node] + "]"@ },
                    )
                    &&& lost_now == lost
                } else {
                    now == was && lost_now == lost + 1
                }
            } else {
                now == was && lost_now == lost
            }
        }),
        saving::remove_ops(loaded, blocks, para, 0).len() == 0,
        saving::remove_skips(loaded, blocks, para, 0) == 0,
{
    lemma_removes_prefix(loaded, node, blocks, para, loaded.len() as int);
}

proof fn lemma_removes_prefix(
    loaded: Seq<Seq<char>>,
    node: Seq<char>,
    blocks: Seq<ShownBlock>,
    para: Dict<Seq<char>>,
    n: int,
)
    requires
        n <= loaded.len(),
    ensures
        saving::remove_ops(loaded.push(node), blocks, para, n) == saving::remove_ops(
            loaded,
            blocks,
            para,
            n,
        ),
        saving::remove_skips(loaded.push(node), blocks, para, n) == saving::remove_skips(
            loaded,
            blocks,
            para,
            n,
        ),
    decreases n,
{
    if n > 0 {
        lemma_removes_prefix(loaded, node, blocks, para, n - 1);
    }
}

/// Added paragraphs: a block whose id begins with `new:` waits with its text, if it has one, for the
/// next block that was loaded, or for the end. Then all that wait become ops at the anchor passed
/// last; and a loaded block with an anchor is the anchor for those that follow.
pub proof fn law_added_paragraphs(
    blocks: Seq<ShownBlock>,
    b: ShownBlock,
    anchors: Dict<Seq<char>>,
)
    ensures
        ({
            let n = blocks.len() as int;
            let was = saving::add_scan(blocks, anchors, n);
            let now = saving::add_scan(blocks.push(b), anchors, n + 1);
            let added = b.node.len() >= 4 && b.node[0] == 'n' && b.node[1] == 'e' && b.node[2] == 'w'
                && b.node[3] == ':';
            &&& added && b.text.len() == 0 ==> now == was
            &&& added && b.text.len() > 0 ==> now.run == was.run.push(b.text) && now.ops == was.ops
                && now.anchor == was.anchor
            &&& !added ==> {
                &&& now.run.len() == 0
                &&& now.ops == was.flushed()
                &&& now.anchor == if anchors.map.dom().contains(b.node) {
                    Some(anchors.map[b.node])
                } else {
                    was.anchor
                }
            }
        }),
        ({
            let start = saving::add_scan(blocks, anchors, 0);
            start.ops.len() == 0 && start.run.len() == 0 && start.anchor is None
        }),
{
    reveal_strlit("new:");
    let pat = "new:"@;
    assert(pat.len() == 4 && pat[0] == 'n' && pat[1] == 'e' && pat[2] == 'w' && pat[3] == ':');
    lemma_adds_prefix(blocks, b, anchors, blocks.len() as int);
    if b.node.len() >= 4 {
        let head = b.node.subrange(0, 4);
        assert(head[0] == b.node[0] && head[1] == b.node[1] && head[2] == b.node[2] && head[3]
            == b.node[3]);
        if b.node[0] == 'n' && b.node[1] == 'e' && b.node[2] == 'w' && b.node[3] == ':' {
            assert(head =~= pat);
        }
    }
}

proof fn lemma_adds_prefix(
    blocks: Seq<ShownBlock>,
    b: ShownBlock,
    anchors: Dict<Seq<char>>,
    n: int,
)
    requires
        n <= blocks.len(),
    ensures
        saving::add_scan(blocks.push(b), anchors, n) == saving::add_scan(blocks, anchors, n),
    decreases n,
{
    if n > 0 {
        lemma_adds_prefix(blocks, b, anchors, n - 1);
    }
}

/// The ops for the paragraphs that wait come behind those that are there, one for each, all at the
/// anchor: the last paragraph first where there is an anchor, else in their own order.
pub proof fn law_waiting_paragraphs_become_ops(scan: AddScan, i: int)
    ensures
        scan.flushed().len() == scan.ops.len() + scan.run.len(),
        scan.flushed().take(scan.ops.len() as int) == scan.ops,
        0 <= i < scan.run.len() ==> scan.flushed()[scan.ops.len() + i] == (DocxOpView::Add {
            after: scan.anchor,
            text: if scan.anchor is Some {
                scan.run[scan.run.len() - 1 - i]
            } else {
                scan.run[i]
            },
        }),
{
    assert(scan.flushed().take(scan.ops.len() as int) =~= scan.ops);
}

/// All that is written back: the changed texts of the blocks of the document, then the loaded nodes
/// that are gone, then the added paragraphs. And all that cannot be: changed texts and gone nodes
/// without an identity.
pub proof fn law_all_that_is_written_back(s: Session)
    ensures
        ({
            let blocks = outline::shown(s.doc);
            let n = blocks.len() as int;
            let loaded = s.original.order;
            let l = loaded.len() as int;
            &&& s.pending_list() == saving::set_ops(blocks, s.original, s.para_map, n)
                + saving::remove_ops(loaded, blocks, s.para_map, l) + saving::add_scan(
                blocks,
                s.body_anchor,
                n,
            ).flushed()
            &&& s.skipped() == saving::set_skips(blocks, s.original, s.para_map, n)
                + saving::remove_skips(loaded, blocks, s.para_map, l)
        }),
{
}

/// There is something unsaved exactly if some block on show was not loaded with its text, or some
/// loaded node is on show no more.
pub proof fn law_what_counts_as_unsaved(s: Session)
    requires
        s.doc.sound(),
    ensures
        s.unsaved() <==> {
            let blocks = outline::shown(s.doc);
            let loaded = s.original.map;
            ||| exists|i: int|
                0 <= i < blocks.len() && !(loaded.dom().contains((#[trigger] blocks[i]).node)
                    && loaded[blocks[i].node] == blocks[i].text)
            ||| exists|k: Seq<char>| #[trigger]
                loaded.dom().contains(k) && forall|i: int|
                    0 <= i < blocks.len() ==> (#[trigger] blocks[i]).node != k
        },
{
    let blocks = outline::shown(s.doc);
    let loaded = s.original.map;
    let now = outline::texts_of(blocks).map;
    outline::law_each_node_shows_once(s.doc);
    lemma_texts(blocks, blocks.len() as int);
    if !s.unsaved() {
        assert(now == loaded);
    }
    if !(exists|i: int|
        0 <= i < blocks.len() && !(loaded.dom().contains((#[trigger] blocks[i]).node)
            && loaded[blocks[i].node] == blocks[i].text)) && !(exists|k: Seq<char>| #[trigger]
        loaded.dom().contains(k) && forall|i: int|
            0 <= i < blocks.len() ==> (#[trigger] blocks[i]).node != k) {
        assert forall|k: Seq<char>| now.dom().contains(k) <==> loaded.dom().contains(k) by {
            if now.dom().contains(k) {
                let i = choose|i: int| 0 <= i < blocks.len() && (#[trigger] blocks[i]).node == k;
                assert(loaded.dom().contains(blocks[i].node));
            }
            if loaded.dom().contains(k) {
                let i = choose|i: int| 0 <= i < blocks.len() && (#[trigger] blocks[i]).node == k;
                assert(now.dom().contains(blocks[i].node));
            }
        }
        assert forall|k: Seq<char>| now.dom().contains(k) implies now[k] == loaded[k] by {
            let i = choose|i: int| 0 <= i < blocks.len() && (#[trigger] blocks[i]).node == k;
            assert(loaded[blocks[i].node] == blocks[i].text);
        }
        assert(now =~= loaded);
    }
}

proof fn lemma_texts(blocks: Seq<ShownBlock>, n: int)
    requires
        0 <= n <= blocks.len(),
        forall|i: int, j: int|
            0 <= i < j < blocks.len() ==> (#[trigger] blocks[i]).node != (#[trigger] blocks[j]).node,
    ensures
        forall|i: int|
            0 <= i < n ==> outline::texts_by_node(blocks, n).has((#[trigger] blocks[i]).node)
                && outline::texts_by_node(blocks, n).map[blocks[i].node] == blocks[i].text,
        forall|k: Seq<char>| #[trigger]
            outline::texts_by_node(blocks, n).map.dom().contains(k) ==> exists|i: int|
                0 <= i < n && (#[trigger] blocks[i]).node == k,
    decreases n,
{
    if n > 0 {
        lemma_texts(blocks, n - 1);
        assert forall|k: Seq<char>| #[trigger]
            outline::texts_by_node(blocks, n).map.dom().contains(k) implies exists|i: int|
            0 <= i < n && (#[trigger] blocks[i]).node == k by {
            if k == blocks[n - 1].node {
                assert(blocks[n - 1].node == k);
            } else {
                assert(outline::texts_by_node(blocks, n - 1).map.dom().contains(k));
                let i = choose|i: int| 0 <= i < n - 1 && (#[trigger] blocks[i]).node == k;
                assert(blocks[i].node == k);
            }
        }
    }
}

/// A list of ops changes the structure of the file exactly if it removes or adds something.
pub proof fn law_what_counts_as_structural(list: Seq<DocxOpView>)
    ensures
        saving::is_structural(list) <==> exists|i: int|
            0 <= i < list.len() && ((#[trigger] list[i]) is Remove || list[i] is Add),
{
    if saving::is_structural(list) {
        let i = choose|i: int| 0 <= i < list.len() && !(#[trigger] list[i] is SetText);
        assert(list[i] is Remove || list[i] is Add);
    }
}

} // verus!
