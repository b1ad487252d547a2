//! Laws of editing: what every op, every commit and every undo keeps.
use crate::commit;
use crate::commit::{CommitErrorView, DocumentModel, Run};
use crate::doc;
use crate::doc::{Doc, NodeView, Nodes};
use crate::ops::{NodeKind, OpView, PatchView, SnapView, SourceView};
use crate::patchset;
use crate::prose::ProseModel;
use crate::textmap;
use crate::tree;
use vstd::prelude::*;

verus! {

// ---------------------------------------------------------------- single ops

/// The picture of a new leaf.
spec fn leaf_picture(id: Seq<char>, text: Seq<char>) -> SnapView {
    SnapView { id, kind: NodeKind::Paragraph, text, children: Seq::empty() }
}

/// Inserting a leaf is planting its picture.
proof fn lemma_insert_is_planting(
    d: Nodes,
    parent: Seq<char>,
    index: usize,
    id: Seq<char>,
    text: Seq<char>,
)
    ensures
        doc::attach(d.put(id, NodeView::leaf(text)), parent, index as int, id) == tree::planted(
            d,
            parent,
            index as int,
            leaf_picture(id, text),
        ),
        tree::distinct(leaf_picture(id, text)),
        forall|k: Seq<char>| #[trigger]
            doc::mentions(leaf_picture(id, text), k) <==> k == id,
{
    let s = leaf_picture(id, text);
    assert(doc::top_node(s) =~= NodeView::leaf(text)) by {
        assert(s.child_ids() =~= Seq::empty());
    }
    assert(doc::graft_children(d.put(id, doc::top_node(s)), s, 0) == d.put(id, doc::top_node(s)));
}

/// A tree can take any op.
pub proof fn law_ops_can_run(doc: Doc, op: OpView)
    requires
        doc.sound(),
    ensures
        doc::edit_ready(doc.nodes, op),
{
    if let OpView::RemoveNode { id } = op {
        if doc.nodes.has(id) {
            assert(doc::grounded(doc.nodes.map, id));
        }
    }
}

/// What it means that a document is a tree: the root is there and nothing lists it, every listed id
/// is that of a node, and every other node is listed at exactly one place and the root leads down
/// to it.
pub proof fn law_shape_of_a_document(doc: Doc, p: Seq<char>, i: int, k: Seq<char>)
    requires
        doc.sound(),
    ensures
        doc.nodes.has(doc.root),
        !tree::lists(doc.nodes.map, p, i, doc.root),
        tree::lists(doc.nodes.map, p, i, k) ==> doc.nodes.has(k),
        doc.nodes.has(k) && k != doc.root ==> {
            &&& tree::reachable(doc.nodes.map, doc.root, k)
            &&& exists|q: Seq<char>, j: int| #[trigger] tree::lists(doc.nodes.map, q, j, k)
            &&& forall|q: Seq<char>, j: int, r: Seq<char>, l: int|
                #[trigger] tree::lists(doc.nodes.map, q, j, k) && #[trigger] tree::lists(
                    doc.nodes.map,
                    r,
                    l,
                    k,
                ) ==> q == r && j == l
        },
{
    let m = doc.nodes.map;
    if tree::lists(m, p, i, k) {
        assert(doc::grounded(m, p));
        let f = choose|f: nat| doc::whole(m, p, f);
        assert(doc::whole(m, m[p].children[i], (f - 1) as nat));
    }
    if doc.nodes.has(k) && k != doc.root {
        assert(tree::reachable(m, doc.root, k));
        let n = choose|n: nat| tree::hangs(m, doc.root, k, n);
        assert(n > 0);
        let (q, j) = choose|q: Seq<char>, j: int| #[trigger]
            tree::lists(m, q, j, k) && tree::hangs(m, doc.root, q, (n - 1) as nat);
        assert(tree::lists(m, q, j, k));
    }
}

/// An op that brings in an id that is in use, or the same id twice, is refused: nothing is ever
/// overwritten.
pub proof fn law_ids_in_use_are_refused(
    doc: Doc,
    target: Seq<char>,
    parent: Seq<char>,
    index: usize,
    snapshot: SnapView,
)
    ensures
        doc.applied(target, OpView::CreateNode { parent, index, snapshot }) matches Ok((next, _)) ==> {
            &&& doc::snap_ids(snapshot).no_duplicates()
            &&& forall|k: Seq<char>| #[trigger] doc::mentions(snapshot, k) ==> !doc.nodes.has(k)
            &&& forall|k: Seq<char>| #[trigger]
                doc.nodes.has(k) ==> next.nodes.has(k) && next.nodes.map[k].text
                    == doc.nodes.map[k].text && next.nodes.map[k].kind == doc.nodes.map[k].kind
        },
{
    let d = doc.nodes;
    tree::lemma_clash(d, snapshot);
    if let Ok((next, _)) = doc.applied(target, OpView::CreateNode { parent, index, snapshot }) {
        tree::lemma_graft_frame(d, snapshot, parent);
        assert forall|k: Seq<char>| #[trigger] d.has(k) implies next.nodes.has(k)
            && next.nodes.map[k].text == d.map[k].text && next.nodes.map[k].kind
            == d.map[k].kind by {
            tree::lemma_graft_frame(d, snapshot, k);
        }
    }
}

/// A tree stays a tree under every op.
pub proof fn law_ops_keep_the_tree(doc: Doc, target: Seq<char>, op: OpView)
    requires
        doc.sound(),
    ensures
        doc.applied(target, op) matches Ok((next, inverse)) ==> tree::is_tree(
            next.nodes.map,
            next.root,
        ) && next.nodes.tidy(),
{
    let d = doc.nodes;
    if let Ok((n, inverse)) = doc::edit(d, target, op) {
        match op {
            OpView::InsertSection { parent, index, id, text } => {
                lemma_insert_is_planting(d, parent, index, id, text);
                tree::lemma_planted_tree(d, doc.root, parent, index, leaf_picture(id, text));
            },
            OpView::CreateNode { parent, index, snapshot } => {
                tree::lemma_clash(d, snapshot);
                tree::lemma_planted_tree(d, doc.root, parent, index, snapshot);
            },
            OpView::RemoveNode { id } => {
                tree::lemma_parent_lists(d, id);
                let (p, i) = doc::parent_of(d, id)->Some_0;
                tree::lemma_pruned_tree(d, doc.root, p, i, id);
            },
            _ => {
                assert(n.map.dom() =~= d.map.dom());
                assert(tree::same_shape(d.map, n.map));
                tree::lemma_tree_by_shape(d.map, n.map, doc.root);
                textmap::lemma_tidy(d, target, n.map[target], Set::empty());
            },
        }
    }
}

/// Replacing what was inserted by what was removed gives back the text.
proof fn lemma_splice_back(
    text: Seq<char>,
    range: crate::offsets::CharRange,
    new: Seq<char>,
    back: crate::offsets::CharRange,
)
    requires
        range.fits(text.len()),
        back.start == range.start,
        back.end.0 == range.start.0 + new.len(),
    ensures
        back.fits(doc::splice(text, range, new).len()),
        doc::splice(
            doc::splice(text, range, new),
            back,
            text.subrange(range.start.0 as int, range.end.0 as int),
        ) == text,
{
    let next = doc::splice(text, range, new);
    let a = range.start.0 as int;
    let b = range.end.0 as int;
    assert(next.len() == text.len() - (b - a) + new.len());
    assert(next.take(a) =~= text.take(a));
    assert(next.skip(a + new.len()) =~= text.skip(b));
    assert(doc::splice(next, back, text.subrange(a, b)) =~= text);
}

/// The op that an op hands back restores the content that the document had before: applied to any
/// document with the content that the op left, it succeeds and gives the earlier content.
pub proof fn law_inverse_restores(doc: Doc, target: Seq<char>, op: OpView, later: Doc)
    requires
        doc.sound(),
        doc.applied(target, op) matches Ok((next, inverse)) && tree::countable(next.nodes.map)
            && later.same_content(next),
        later.nodes.tidy(),
    ensures
        ({
            let inverse = doc.applied(target, op)->Ok_0.1;
            &&& doc::edit_ready(later.nodes, inverse)
            &&& later.applied(target, inverse) matches Ok((back, redo)) && back.same_content(doc)
                && back.nodes.tidy()
        }),
{
    let d = doc.nodes;
    let (n, inverse) = doc::edit(d, target, op)->Ok_0;
    let e = later.nodes;
    match op {
        OpView::InsertSection { parent, index, id, text } => {
            lemma_insert_is_planting(d, parent, index, id, text);
            tree::lemma_planted_removed(d, doc.root, parent, index, leaf_picture(id, text), e);
            assert(doc::edit(e, target, inverse) is Ok);
        },
        OpView::CreateNode { parent, index, snapshot } => {
            tree::lemma_clash(d, snapshot);
            tree::lemma_planted_removed(d, doc.root, parent, index, snapshot, e);
            assert(doc::edit(e, target, inverse) is Ok);
        },
        OpView::RemoveNode { id } => {
            tree::lemma_parent_lists(d, id);
            let (p, i) = doc::parent_of(d, id)->Some_0;
            tree::lemma_pruned_rebuilt(d, doc.root, p, i, id, e);
            assert(doc::edit(e, target, inverse) is Ok);
        },
        _ => {
            let was = d.map[target];
            if let OpView::SetSpan { range, text } = op {
                assert(n.has(target));
                assert(n.map[target].text.len() <= usize::MAX);
                lemma_splice_back(was.text, range, text, inverse->range);
            }
            let back = doc::edit(e, target, inverse)->Ok_0.0;
            assert(back.map[target] =~= was);
            assert(back.map =~= d.map);
            textmap::lemma_tidy(e, target, was, Set::empty());
        },
    }
}

// ---------------------------------------------------------------- runs

/// Along the run of `ps` from position `k` on, everything stays countable.
pub open spec fn stays_countable(doc: Doc, ps: Seq<PatchView>, k: int) -> bool
    decreases ps.len() - k,
{
    0 <= k < ps.len() ==> match doc.applied(ps[k].target, ps[k].op) {
        Ok((next, _)) => tree::countable(next.nodes.map) && stays_countable(next, ps, k + 1),
        Err(_) => true,
    }
}

/// Whatever has the content of `next` is taken back by the patch to the content of `prev`.
pub open spec fn steps_back(prev: Doc, next: Doc, patch: PatchView) -> bool {
    forall|later: Doc|
        #![trigger later.same_content(next)]
        later.same_content(next) && later.nodes.tidy() ==> doc::edit_ready(later.nodes, patch.op)
            && (later.applied(patch.target, patch.op) matches Ok((back, redo)) && back.same_content(
            prev,
        ) && back.nodes.tidy())
}

/// The inverses lead, the last one first, from the content of `end` back to that of `start`.
pub open spec fn leads_back(start: Doc, end: Doc, inverses: Seq<PatchView>) -> bool
    decreases inverses.len(),
{
    if inverses.len() == 0 {
        start.same_content(end)
    } else {
        exists|prev: Doc|
            leads_back(start, prev, inverses.drop_last()) && #[trigger] steps_back(
                prev,
                end,
                inverses.last(),
            )
    }
}

proof fn lemma_rollback(start: Doc, end: Doc, inverses: Seq<PatchView>, later: Doc)
    requires
        leads_back(start, end, inverses),
        later.same_content(end),
        later.nodes.tidy(),
        later.rev + inverses.len() <= u64::MAX,
    ensures
        commit::rollback_ready::<ProseModel>(later, inverses),
        commit::rollback::<ProseModel>(later, inverses).same_content(start),
        commit::rollback::<ProseModel>(later, inverses).nodes.tidy(),
    decreases inverses.len(),
{
    if inverses.len() > 0 {
        let prev = choose|prev: Doc|
            leads_back(start, prev, inverses.drop_last()) && #[trigger] steps_back(
                prev,
                end,
                inverses.last(),
            );
        let p = inverses.last();
        let back = later.applied(p.target, p.op)->Ok_0.0;
        lemma_rollback(start, prev, inverses.drop_last(), back);
    }
}

/// The inverses, stored last one first, run through as a commit of their own.
proof fn lemma_undo_run(
    start: Doc,
    end: Doc,
    all: Seq<PatchView>,
    k: int,
    later: Doc,
    made: Seq<PatchView>,
)
    requires
        0 <= k <= all.len(),
        leads_back(start, end, all.take(all.len() - k)),
        later.same_content(end),
        later.nodes.tidy(),
        later.rev + (all.len() - k) <= u64::MAX,
    ensures
        commit::run_ready_from::<ProseModel>(later, all.reverse(), k, made),
        commit::run_from::<ProseModel>(later, all.reverse(), k, made) matches Run::Done {
            state,
            inverses,
        } && state.same_content(start) && state.nodes.tidy() && state.rev == later.rev + (all.len()
            - k),
    decreases all.len() - k,
{
    let invs = all.take(all.len() - k);
    if k < all.len() {
        let prev = choose|prev: Doc|
            leads_back(start, prev, invs.drop_last()) && #[trigger] steps_back(
                prev,
                end,
                invs.last(),
            );
        let p = all.reverse()[k];
        assert(p == invs.last());
        assert(invs.drop_last() =~= all.take(all.len() - (k + 1)));
        let (back, redo) = later.applied(p.target, p.op)->Ok_0;
        lemma_undo_run(
            start,
            prev,
            all,
            k + 1,
            back,
            made.push(commit::inverse_patch(p, redo)),
        );
    }
}

proof fn lemma_run(start: Doc, doc: Doc, ps: Seq<PatchView>, k: int, inverses: Seq<PatchView>)
    requires
        0 <= k <= ps.len(),
        doc.sound(),
        stays_countable(doc, ps, k),
        leads_back(start, doc, inverses),
        inverses.len() == k,
        doc.rev + (ps.len() - k) + ps.len() <= u64::MAX,
    ensures
        commit::run_ready_from::<ProseModel>(doc, ps, k, inverses),
        match commit::run_from::<ProseModel>(doc, ps, k, inverses) {
            Run::Done { state, inverses: invs } => state.sound() && leads_back(start, state, invs)
                && invs.len() == ps.len() && state.rev == doc.rev + (ps.len() - k),
            Run::Failed { state, patch, cause } => state.same_content(start)
                && state.nodes.tidy(),
        },
    decreases ps.len() - k,
{
    if k < ps.len() {
        let p = ps[k];
        law_ops_can_run(doc, p.op);
        match doc.applied(p.target, p.op) {
            Ok((next, op)) => {
                law_ops_keep_the_tree(doc, p.target, p.op);
                let inv = commit::inverse_patch(p, op);
                let more = inverses.push(inv);
                assert(steps_back(doc, next, inv)) by {
                    assert forall|later: Doc|
                        #![trigger later.same_content(next)]
                        later.same_content(next) && later.nodes.tidy() implies doc::edit_ready(
                        later.nodes,
                        inv.op,
                    ) && (later.applied(inv.target, inv.op) matches Ok((back, redo))
                        && back.same_content(doc) && back.nodes.tidy()) by {
                        law_inverse_restores(doc, p.target, p.op, later);
                    }
                }
                assert(more.drop_last() =~= inverses);
                assert(more.last() == inv);
                assert(leads_back(start, next, more));
                lemma_run(start, next, ps, k + 1, more);
            },
            Err(_) => {
                lemma_rollback(start, doc, inverses, doc);
            },
        }
    }
}

/// A commit always comes back on a tree, and when it fails the document has the content that it
/// had before.
pub proof fn law_failed_commit_changes_nothing(doc: Doc, ps: Seq<PatchView>)
    requires
        doc.sound(),
        patchset::topo(ps) is Ok ==> stays_countable(doc, commit::ordered(ps), 0),
        doc.rev + 2 * ps.len() <= u64::MAX,
    ensures
        commit::commit_ready::<ProseModel>(doc, ps),
        ({
            let (next, result) = commit::commit_outcome::<ProseModel>(doc, ps);
            &&& result is Err ==> next.same_content(doc) && next.nodes.tidy()
            &&& result is Ok ==> next.sound()
        }),
{
    if patchset::topo(ps) is Ok {
        lemma_run(doc, doc, commit::ordered(ps), 0, Seq::empty());
    }
}

/// Undoing a commit gives back the content from before it. `later` is any document with the
/// content that the commit left.
pub proof fn law_undo_restores(doc: Doc, ps: Seq<PatchView>, later: Doc)
    requires
        doc.sound(),
        patchset::topo(ps) is Ok ==> stays_countable(doc, commit::ordered(ps), 0),
        doc.rev + 2 * ps.len() <= u64::MAX,
        commit::commit_outcome::<ProseModel>(doc, ps).1 is Ok,
        later.same_content(commit::commit_outcome::<ProseModel>(doc, ps).0),
        later.nodes.tidy(),
        later.rev + ps.len() <= u64::MAX,
    ensures
        ({
            let inverse = commit::commit_outcome::<ProseModel>(doc, ps).1->Ok_0;
            let (back, result) = commit::undo_outcome::<ProseModel>(later, inverse);
            &&& commit::run_ready::<ProseModel>(later, inverse)
            &&& result is Ok
            &&& back.same_content(doc)
            &&& back.nodes.tidy()
        }),
{
    let list = commit::ordered(ps);
    lemma_run(doc, doc, list, 0, Seq::empty());
    if let Run::Done { state, inverses } = commit::run::<ProseModel>(doc, list) {
        assert(inverses.take(inverses.len() as int) =~= inverses);
        lemma_undo_run(doc, state, inverses, 0, later, Seq::empty());
    }
}

/// An undo that fails leaves the document with the content that it had before, and on a tree every
/// undo comes back.
pub proof fn law_failed_undo_changes_nothing(doc: Doc, inverse: Seq<PatchView>)
    requires
        doc.sound(),
        stays_countable(doc, inverse, 0),
        doc.rev + 2 * inverse.len() <= u64::MAX,
    ensures
        commit::run_ready::<ProseModel>(doc, inverse),
        ({
            let (next, result) = commit::undo_outcome::<ProseModel>(doc, inverse);
            &&& result is Err ==> next.same_content(doc) && next.nodes.tidy()
            &&& result is Ok ==> next.sound()
        }),
{
    lemma_run(doc, doc, inverse, 0, Seq::empty());
}

/// A document with nothing but its root is a tree.
pub proof fn law_new_document_is_sound()
    ensures
        (Doc {
            nodes: textmap::Dict::empty().put("root"@, NodeView::leaf(Seq::empty())),
            root: "root"@,
            rev: 0,
            toc: None,
        }).sound(),
{
    let d: Nodes = textmap::Dict::empty().put("root"@, NodeView::leaf(Seq::empty()));
    assert(doc::whole(d.map, "root"@, 1));
    assert forall|id: Seq<char>| d.map.dom().contains(id) implies #[trigger] doc::grounded(
        d.map,
        id,
    ) by {}
    assert forall|id: Seq<char>| d.map.dom().contains(id) implies #[trigger] tree::reachable(
        d.map,
        "root"@,
        id,
    ) by {
        assert(tree::hangs(d.map, "root"@, id, 0));
    }
    tree::lemma_walkable(d.map, "root"@);
    let e: Nodes = textmap::Dict::empty();
    assert(e.tidy());
    textmap::lemma_tidy(e, "root"@, NodeView::leaf(Seq::empty()), Set::empty());
}

// ---------------------------------------------------------------- review of AI patches

/// Nothing that an AI proposed reaches the document without review: such a set is refused as a
/// whole, and the document is the very same.
pub proof fn law_unreviewed_never_commits<M: DocumentModel>(state: M::V, ps: Seq<PatchView>, i: int)
    requires
        0 <= i < ps.len(),
        ps[i].unreviewed(),
    ensures
        commit::commit_outcome::<M>(state, ps).0 == state,
        commit::commit_outcome::<M>(state, ps).1 matches Err(CommitErrorView::UnreviewedAi(id)),
{
}

/// An approved set is never refused for want of review.
pub proof fn law_approved_set_passes<M: DocumentModel>(state: M::V, ps: Seq<PatchView>)
    ensures
        commit::all_reviewed(Seq::new(ps.len(), |i: int| ps[i].reviewed())),
        !(commit::commit_outcome::<M>(
            state,
            Seq::new(ps.len(), |i: int| ps[i].reviewed()),
        ).1 matches Err(CommitErrorView::UnreviewedAi(id))),
{
    let all = Seq::new(ps.len(), |i: int| ps[i].reviewed());
    assert forall|i: int| 0 <= i < all.len() implies !(#[trigger] all[i]).unreviewed() by {
        assert(all[i] == ps[i].reviewed());
    }
}

/// The state in which patch number `k` of a run is applied.
pub open spec fn state_before<M: DocumentModel>(state: M::V, ps: Seq<PatchView>, k: int) -> M::V
    decreases k,
{
    if k <= 0 {
        state
    } else {
        let prev = state_before::<M>(state, ps, k - 1);
        match M::outcome(prev, ps[k - 1].target, ps[k - 1].op) {
            Ok((next, _)) => next,
            Err(_) => prev,
        }
    }
}

/// The op that patch number `k` of a run hands back.
pub open spec fn handed_back<M: DocumentModel>(state: M::V, ps: Seq<PatchView>, k: int) -> OpView {
    M::outcome(state_before::<M>(state, ps, k), ps[k].target, ps[k].op)->Ok_0.1
}

proof fn lemma_run_inverses<M: DocumentModel>(
    start: M::V,
    ps: Seq<PatchView>,
    k: int,
    inverses: Seq<PatchView>,
)
    requires
        0 <= k <= ps.len(),
        inverses.len() == k,
        forall|i: int|
            0 <= i < k ==> #[trigger] inverses[i] == commit::inverse_patch(
                ps[i],
                handed_back::<M>(start, ps, i),
            ),
    ensures
        commit::run_from::<M>(state_before::<M>(start, ps, k), ps, k, inverses) matches Run::Done {
            state: end,
            inverses: invs,
        } ==> invs.len() == ps.len() && forall|i: int|
            0 <= i < ps.len() ==> #[trigger] invs[i] == commit::inverse_patch(
                ps[i],
                handed_back::<M>(start, ps, i),
            ),
    decreases ps.len() - k,
{
    if k < ps.len() {
        if let Ok((next, op)) = M::outcome(
            state_before::<M>(start, ps, k),
            ps[k].target,
            ps[k].op,
        ) {
            assert(state_before::<M>(start, ps, k + 1) == next);
            lemma_run_inverses::<M>(
                start,
                ps,
                k + 1,
                inverses.push(commit::inverse_patch(ps[k], op)),
            );
        }
    }
}

/// The inverse set of a commit holds, in reverse running order, one patch for each patch of the
/// set: it is aimed at the same node, its op is the one that applying the patch handed back, and it
/// is authored and without dependencies, so it never waits for review.
pub proof fn law_inverse_set_mirrors_the_run<M: DocumentModel>(state: M::V, ps: Seq<PatchView>)
    ensures
        commit::commit_outcome::<M>(state, ps).1 matches Ok(inverse) ==> inverse.len() == ps.len()
            && commit::all_reviewed(inverse) && forall|i: int|
            0 <= i < ps.len() ==> #[trigger] inverse[i] == (PatchView {
                id: "inv:"@ + commit::ordered(ps)[ps.len() - 1 - i].id,
                source: SourceView::Authored,
                target: commit::ordered(ps)[ps.len() - 1 - i].target,
                op: handed_back::<M>(state, commit::ordered(ps), ps.len() - 1 - i),
                depends_on: Seq::empty(),
            }),
{
    let list = commit::ordered(ps);
    lemma_run_inverses::<M>(state, list, 0, Seq::empty());
}

// ---------------------------------------------------------------- derived patches

/// The update of the table of contents depends on patches of the authored set only, and on
/// every one that touched a heading.
pub proof fn law_derived_patch_depends_on_heading_patches(doc: Doc, authored: Seq<PatchView>, i: int)
    requires
        0 <= i < authored.len(),
    ensures
        doc.derived_patches(authored).len() <= 1,
        doc.derived_patches(authored).len() == 1 ==> {
            let p = doc.derived_patches(authored)[0];
            &&& doc.nodes.has(authored[i].target) && doc.nodes.map[authored[i].target].kind is Heading
                ==> p.depends_on.contains(authored[i].id)
            &&& forall|k: int|
                0 <= k < p.depends_on.len() ==> exists|j: int|
                    0 <= j < authored.len() && (#[trigger] authored[j]).id
                        == #[trigger] p.depends_on[k]
        },
{
    let touches = |p: PatchView|
        doc.nodes.has(p.target) && doc.nodes.map[p.target].kind is Heading;
    let kept = authored.filter(touches);
    broadcast use vstd::seq_lib::group_filter_ensures;

    if doc.derived_patches(authored).len() == 1 {
        let p = doc.derived_patches(authored)[0];
        if touches(authored[i]) {
            assert(kept.contains(authored[i]));
            let j = choose|j: int| 0 <= j < kept.len() && kept[j] == authored[i];
            assert(p.depends_on[j] == authored[i].id);
        }
        assert forall|k: int| 0 <= k < p.depends_on.len() implies exists|j: int|
            0 <= j < authored.len() && (#[trigger] authored[j]).id == #[trigger] p.depends_on[k] by {
            lemma_filtered_from(authored, touches, k);
            let j = choose|j: int| 0 <= j < authored.len() && authored[j] == kept[k];
            assert(authored[j].id == p.depends_on[k]);
        }
    }
}

proof fn lemma_filtered_from(s: Seq<PatchView>, pred: spec_fn(PatchView) -> bool, k: int)
    requires
        0 <= k < s.filter(pred).len(),
    ensures
        exists|j: int| 0 <= j < s.len() && s[j] == s.filter(pred)[k],
    decreases s.len(),
{
    reveal(Seq::filter);
    let rest = s.drop_last();
    if k < rest.filter(pred).len() {
        lemma_filtered_from(rest, pred, k);
        let j = choose|j: int| 0 <= j < rest.len() && rest[j] == rest.filter(pred)[k];
        assert(s[j] == s.filter(pred)[k]);
    } else {
        assert(s[s.len() - 1] == s.filter(pred)[k]);
    }
}

} // verus!
