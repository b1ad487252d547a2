//! What calls on a document give, read off its nodes.
use crate::commit;
use crate::commit::{AssembleError, CommitError, CommitErrorView, DocumentModel, PatchError, PatchErrorView};
use crate::doc;
use crate::laws;
use crate::ops;
use crate::ops::{NodeId, NodeKind, Op, OpView, Patch, PatchView, SourceView, Target};
use crate::outline;
use crate::outline::ViewBlock;
use crate::page_laws;
use crate::patchset;
use crate::patchset::{PatchSet, TopoError, TopoErrorView};
use crate::prose::ProseModel;
use crate::render;
use crate::render::{EditError, Rendered, SourceMap, SourceSpan};
use vstd::prelude::*;

verus! {

// ---------------------------------------------------------------- reading

/// Text, kind and children of a node can be read if and only if the node is there.
pub proof fn law_reading_a_node(
    model: &ProseModel,
    id: &NodeId,
    text: Option<&str>,
    kind: Option<NodeKind>,
    children: Option<&[NodeId]>,
)
    requires
        call_ensures(<ProseModel as DocumentModel>::get_text, (model, id), text),
        call_ensures(ProseModel::node_kind, (model, id), kind),
        call_ensures(ProseModel::children, (model, id), children),
    ensures
        text is Some <==> model@.nodes.has(id@),
        kind is Some <==> model@.nodes.has(id@),
        children is Some <==> model@.nodes.has(id@),
        model@.nodes.has(id@) ==> {
            let node = model@.nodes.map[id@];
            &&& text->Some_0@ == node.text
            &&& kind->Some_0 == node.kind
            &&& children->Some_0@.len() == node.children.len()
            &&& forall|i: int|
                0 <= i < node.children.len() ==> (#[trigger] children->Some_0@[i])@
                    == node.children[i]
        },
{
    if model@.nodes.has(id@) {
        let node = model@.nodes.map[id@];
        let c = children->Some_0@;
        assert(ops::seen(c).len() == c.len());
        assert forall|i: int| 0 <= i < node.children.len() implies (#[trigger] c[i])@
            == node.children[i] by {
            assert(ops::seen(c)[i] == c[i]@);
        }
    }
}

/// A new document is at its first revision, has no table of contents, and holds nothing but an empty
/// paragraph, its root.
pub proof fn law_new_document(model: ProseModel, k: Seq<char>)
    requires
        call_ensures(ProseModel::new, (), model),
    ensures
        model@.root == "root"@,
        model@.rev == 0,
        model@.toc is None,
        model@.nodes.has(k) <==> k == "root"@,
        model@.nodes.map["root"@].text.len() == 0,
        model@.nodes.map["root"@].kind is Paragraph,
        model@.nodes.map["root"@].children.len() == 0,
{
}

/// Putting a text under an id: a node that is there gets the text and is otherwise the same, and so
/// are all others; where there is none, a paragraph comes in as the last child of the root. This is
/// no edit: the revision stays.
pub proof fn law_putting_a_text(model: &mut ProseModel, id: &str, text: &str, k: Seq<char>)
    requires
        call_ensures(ProseModel::insert, (model, id, text), ()),
        old(model)@.nodes.has(id@) || old(model)@.nodes.has(old(model)@.root),
    ensures
        ({
            let a = old(model)@;
            let b = final(model)@;
            &&& b.rev == a.rev && b.root == a.root && b.toc == a.toc
            &&& b.nodes.has(k) <==> a.nodes.has(k) || k == id@
            &&& b.nodes.map[id@].text == text@
            &&& a.nodes.has(id@) ==> b.nodes.map[id@].kind == a.nodes.map[id@].kind
                && b.nodes.map[id@].children == a.nodes.map[id@].children
            &&& !a.nodes.has(id@) ==> b.nodes.map[id@].kind is Paragraph
                && b.nodes.map[id@].children.len() == 0 && b.nodes.map[a.root].children
                == a.nodes.map[a.root].children.push(id@) && b.nodes.map[a.root].text
                == a.nodes.map[a.root].text && b.nodes.map[a.root].kind
                == a.nodes.map[a.root].kind
            &&& a.nodes.has(k) && k != id@ && (a.nodes.has(id@) || k != a.root)
                ==> b.nodes.map[k] == a.nodes.map[k]
        }),
{
    let a = old(model)@;
    let b = final(model)@;
    if !a.nodes.has(id@) {
        assert(b.nodes.map[a.root].children =~= a.nodes.map[a.root].children.push(id@));
    }
}

/// Naming the table of contents changes nothing else.
pub proof fn law_naming_the_table_of_contents(model: &mut ProseModel, id: &str)
    requires
        call_ensures(ProseModel::set_toc, (model, id), ()),
    ensures
        final(model)@.toc == Some(id@),
        final(model)@.nodes == old(model)@.nodes,
        final(model)@.root == old(model)@.root,
        final(model)@.rev == old(model)@.rev,
{
}

// ---------------------------------------------------------------- editing

/// An op that is refused leaves the document as it was. One that is taken counts as one revision,
/// leaves the root and the table of contents where they are, and hands back an op of the kind that
/// undoes it.
pub proof fn law_applying_an_op(
    model: &mut ProseModel,
    target: &Target,
    op: &Op,
    r: Result<Op, PatchError>,
)
    requires
        call_ensures(<ProseModel as DocumentModel>::apply_op, (model, target, op), r),
        old(model)@.rev < u64::MAX,
    ensures
        r is Err ==> final(model)@ == old(model)@,
        r is Ok ==> {
            &&& final(model)@.rev == old(model)@.rev + 1
            &&& final(model)@.root == old(model)@.root
            &&& final(model)@.toc == old(model)@.toc
            &&& old(model)@.applied(target@, op@) == Ok::<_, PatchErrorView>(
                (final(model)@, r->Ok_0@),
            )
            &&& match *op {
                Op::SetMarkdown { .. } => r->Ok_0 is SetMarkdown,
                Op::SetSpan { .. } => r->Ok_0 is SetSpan,
                Op::SetKind { .. } => r->Ok_0 is SetKind,
                Op::InsertSection { .. } => r->Ok_0 is RemoveNode,
                Op::RemoveNode { .. } => r->Ok_0 is CreateNode,
                Op::CreateNode { .. } => r->Ok_0 is RemoveNode,
            }
        },
        r matches Err(e) ==> old(model)@.applied(target@, op@) == Err::<
            (doc::Doc, OpView),
            PatchErrorView,
        >(e@),
{
}

/// A new section stands where it was asked for: it is child number `index` of its parent, the
/// children before it keep their numbers, and those from there on move up by one.
pub proof fn law_inserting_a_section(
    model: &mut ProseModel,
    target: &Target,
    parent: NodeId,
    index: usize,
    id: NodeId,
    text: String,
    r: Result<Op, PatchError>,
    j: int,
)
    requires
        call_ensures(
            <ProseModel as DocumentModel>::apply_op,
            (model, target, &Op::InsertSection { parent, index, id, text }),
            r,
        ),
    ensures
        r is Ok <==> old(model)@.nodes.has(parent@) && !old(model)@.nodes.has(id@) && index
            <= old(model)@.nodes.map[parent@].children.len(),
        r is Ok ==> {
            let a = old(model)@.nodes.map;
            let b = final(model)@.nodes.map;
            &&& b[parent@].children.len() == a[parent@].children.len() + 1
            &&& b[parent@].children[index as int] == id@
            &&& 0 <= j < index ==> b[parent@].children[j] == a[parent@].children[j]
            &&& index <= j < a[parent@].children.len() ==> b[parent@].children[j + 1]
                == a[parent@].children[j]
            &&& b[id@].text == text@
            &&& b[id@].kind is Paragraph
            &&& b[id@].children.len() == 0
            &&& (r->Ok_0 matches Op::RemoveNode { id: back } && back@ == id@)
        },
{
}

/// An update that follows from other patches gives the table of contents its new text. It is made
/// exactly if there is a table of contents and some patch is aimed at a heading.
pub proof fn law_deriving(model: &ProseModel, authored: &[Patch], r: Vec<Patch>)
    requires
        call_ensures(<ProseModel as DocumentModel>::derive, (model, authored), r),
    ensures
        ops::seen(r@) == model@.derived_patches(ops::seen(authored@)),
        r@.len() <= 1,
        r@.len() == 1 <==> (model@.toc matches Some(toc) && model@.nodes.has(toc)) && exists|i: int|
            0 <= i < authored@.len() && model@.nodes.has((#[trigger] authored@[i])@.target)
                && model@.nodes.map[authored@[i]@.target].kind is Heading,
        r@.len() == 1 ==> {
            let p = r@[0]@;
            &&& model@.toc == Some(p.target)
            &&& p.source is Derived
            &&& (p.op matches OpView::SetMarkdown { md } && page_laws::tabulates(
                md,
                doc::titles(model@.nodes.map, doc::preorder(model@.nodes.map, model@.root)),
            ))
        },
{
    let ps = ops::seen(authored@);
    assert(ops::seen(r@).len() == r@.len());
    if r@.len() >= 1 {
        assert(ops::seen(r@)[0] == r@[0]@);
    }
    if exists|i: int|
        0 <= i < authored@.len() && model@.nodes.has((#[trigger] authored@[i])@.target)
            && model@.nodes.map[authored@[i]@.target].kind is Heading {
        let i = choose|i: int|
            0 <= i < authored@.len() && model@.nodes.has((#[trigger] authored@[i])@.target)
                && model@.nodes.map[authored@[i]@.target].kind is Heading;
        assert(ps[i] == authored@[i]@);
        page_laws::law_table_of_contents(model@, ps, i);
    } else {
        assert forall|i: int| 0 <= i < ps.len() implies !(model@.nodes.has((#[trigger] ps[i]).target)
            && model@.nodes.map[ps[i].target].kind is Heading) by {
            assert(ps[i] == authored@[i]@);
        }
        page_laws::law_no_heading_no_update(model@, ps);
    }
}

// ---------------------------------------------------------------- patches

/// What a patch is when it is made: authored ones need no review, proposed ones wait for it, and none
/// depends on anything until that is said.
pub proof fn law_making_patches(id: &str, target: Target, op: Op, own: Patch, proposed: Patch)
    requires
        call_ensures(Patch::authored, (id, target, op), own),
        call_ensures(Patch::ai, (id, target, op), proposed),
    ensures
        own@.id == id@ && proposed@.id == id@,
        own@.target == target@ && proposed@.target == target@,
        own@.op == op@ && proposed@.op == op@,
        own@.depends_on.len() == 0 && proposed@.depends_on.len() == 0,
        own@.source is Authored,
        proposed@.source == (SourceView::Ai { reviewed: false }),
{
}

/// Saying what a patch depends on changes nothing else.
pub proof fn law_naming_dependencies(p: Patch, deps: &[&str], r: Patch, i: int)
    requires
        call_ensures(Patch::with_deps, (p, deps), r),
    ensures
        r@.depends_on.len() == deps@.len(),
        0 <= i < deps@.len() ==> r@.depends_on[i] == deps@[i]@,
        r@.id == p@.id,
        r@.source == p@.source,
        r@.target == p@.target,
        r@.op == p@.op,
{
}

/// Approving a set marks what was proposed as reviewed and changes nothing else.
pub proof fn law_approving(set: PatchSet, r: PatchSet, i: int)
    requires
        call_ensures(PatchSet::approve_ai, (set,), r),
        0 <= i < set@.len(),
    ensures
        r@.len() == set@.len(),
        r@[i].id == set@[i].id,
        r@[i].target == set@[i].target,
        r@[i].op == set@[i].op,
        r@[i].depends_on == set@[i].depends_on,
        set@[i].source is Ai ==> r@[i].source == (SourceView::Ai { reviewed: true }),
        !(set@[i].source is Ai) ==> r@[i].source == set@[i].source,
{
}

/// The running order holds every patch of the set once, each behind the patches that it depends on.
pub proof fn law_ordering_a_set(set: &PatchSet, r: Result<Vec<&Patch>, TopoError>)
    requires
        call_ensures(PatchSet::topo_order, (set,), r),
    ensures
        r matches Ok(v) ==> {
            &&& v@.len() == set@.len()
            &&& exists|order: Seq<int>| #[trigger] patchset::topo(set@) == Ok::<_, TopoErrorView>(order)
                && order.len() == v@.len() && forall|i: int|
                0 <= i < v@.len() ==> (#[trigger] v@[i])@ == set@[order[i]]
        },
        r matches Err(e) ==> patchset::topo(set@) == Err::<Seq<int>, TopoErrorView>(e@),
{
    if let Ok(v) = r {
        patchset::law_order_puts_dependencies_first(set@);
    }
}

// ---------------------------------------------------------------- commits

/// Whatever a commit gives, the document is the very same if the set was refused, and the error says
/// why; and an undo set that comes back holds one patch for each patch of the set.
pub proof fn law_committing(
    model: &mut ProseModel,
    set: &PatchSet,
    r: Result<PatchSet, CommitError>,
)
    requires
        call_ensures(commit::commit::<ProseModel>, (model, set), r),
    ensures
        commit::commit_outcome::<ProseModel>(old(model)@, set@).0 == final(model)@,
        match r {
            Ok(inverse) => commit::commit_outcome::<ProseModel>(old(model)@, set@).1 == Ok::<
                _,
                CommitErrorView,
            >(inverse@) && inverse@.len() == set@.len(),
            Err(e) => commit::commit_outcome::<ProseModel>(old(model)@, set@).1 == Err::<
                Seq<PatchView>,
                _,
            >(e@) && (!(e is Aborted) ==> final(model)@ == old(model)@),
        },
{
    if r is Ok {
        laws::law_inverse_set_mirrors_the_run::<ProseModel>(old(model)@, set@);
    }
}

/// An undo gives the document, and the answer, that its run of patches gives.
pub proof fn law_taking_back(
    model: &mut ProseModel,
    inverse: &PatchSet,
    r: Result<(), CommitError>,
)
    requires
        call_ensures(commit::undo::<ProseModel>, (model, inverse), r),
    ensures
        commit::undo_outcome::<ProseModel>(old(model)@, inverse@).0 == final(model)@,
        match r {
            Ok(u) => commit::undo_outcome::<ProseModel>(old(model)@, inverse@).1 is Ok,
            Err(e) => e is Aborted && commit::undo_outcome::<ProseModel>(old(model)@, inverse@).1
                == Err::<(), _>(e@),
        },
{
}

/// Assembling a set: it holds the authored patches and those that follow from them, in running
/// order; and the document has the authored patches applied.
pub proof fn law_assembling(
    model: &mut ProseModel,
    authored: Vec<Patch>,
    r: Result<PatchSet, AssembleError>,
)
    requires
        call_ensures(commit::assemble::<ProseModel>, (model, authored), r),
    ensures
        ({
            let own = ops::seen(authored@);
            let all = own + final(model)@.derived_patches(own);
            let fed = commit::feed_from::<ProseModel>(old(model)@, own, 0);
            &&& final(model)@ == fed.0
            &&& r is Err && r->Err_0 is Apply <==> fed.1 is Some
            &&& r matches Err(AssembleError::Apply(e)) ==> fed.1 == Some(e@)
            &&& r matches Err(AssembleError::Topo(e)) ==> patchset::topo(all) == Err::<
                Seq<int>,
                TopoErrorView,
            >(e@)
            &&& r matches Ok(set) ==> {
                &&& set@.len() == all.len()
                &&& patchset::topo(all) matches Ok(order)
                &&& forall|i: int| 0 <= i < set@.len() ==> #[trigger] set@[i] == all[order[i]]
            }
        }),
{
    let own = ops::seen(authored@);
    let all = own + final(model)@.derived_patches(own);
    if r is Ok {
        patchset::law_order_puts_dependencies_first(all);
    }
}

// ---------------------------------------------------------------- pages

/// A page shows the nodes of the document in reading order, and so does the list of blocks.
pub proof fn law_showing_a_document(model: &ProseModel, page: Rendered, blocks: Vec<ViewBlock>)
    requires
        call_ensures(render::render_html, (model,), page),
        call_ensures(outline::document_blocks, (model,), blocks),
    ensures
        ({
            let ids = doc::preorder(model@.nodes.map, model@.root);
            &&& page.html@ == render::html_of(model@.nodes.map, ids)
            &&& page.source_map@ == render::spans_of(model@.nodes.map, ids)
            &&& ops::seen(blocks@) == outline::blocks_of(model@.nodes.map, ids)
        }),
{
}

/// The span of a node is the first one that names it.
pub proof fn law_finding_a_span(map: &SourceMap, node: &NodeId, r: Option<&SourceSpan>, i: int)
    requires
        call_ensures(SourceMap::span_for, (map, node), r),
        0 <= i < map@.len(),
        map@[i].node == node@,
        forall|j: int| 0 <= j < i ==> (#[trigger] map@[j]).node != node@,
    ensures
        r matches Some(s) && s@ == map@[i],
{
    let args = (map, node);
    assert(args.0@[i] == map@[i]);
    if let Some(s) = r {
        let k = choose|k: int| #[trigger] render::first_span(map@, node@, k) && s@ == map@[k];
        assert(render::first_span(map@, node@, k) && s@ == map@[k]);
        if k < i {
            assert(map@[k].node != node@);
        } else if i < k {
            assert(map@[i].node != node@);
        }
    }
}

/// An edit of a page is for a node that the page shows: where no span names the node, it is refused
/// and the document stays as it is.
pub proof fn law_editing_a_page(
    model: &mut ProseModel,
    map: &SourceMap,
    node: &NodeId,
    new_text: &str,
    r: Result<PatchSet, EditError>,
)
    requires
        call_ensures(render::apply_fragment_edit, (model, map, node, new_text), r),
    ensures
        (forall|i: int| 0 <= i < map@.len() ==> (#[trigger] map@[i]).node != node@) ==> (r
            matches Err(EditError::NoSpan(n)) && n@ == node@ && final(model)@ == old(model)@),
        forall|i: int|
            0 <= i < map@.len() && (#[trigger] map@[i]).node == node@ && (forall|j: int|
                0 <= j < i ==> (#[trigger] map@[j]).node != node@) ==> !(r
                matches Err(EditError::NoSpan(n))),
{
    assert forall|i: int|
        0 <= i < map@.len() && (#[trigger] map@[i]).node == node@ && (forall|j: int|
            0 <= j < i ==> (#[trigger] map@[j]).node != node@) implies !(r
        matches Err(EditError::NoSpan(n))) by {
        assert(render::first_span(map@, node@, i));
    }
}

/// Editing a page that was just made: a node that it has a span for gets the new text as a whole, and
/// nothing else changes.
pub proof fn law_editing_a_fresh_page(
    shown: &ProseModel,
    model: &mut ProseModel,
    page: Rendered,
    node: &NodeId,
    new_text: &str,
    r: Result<PatchSet, EditError>,
    i: int,
    k: Seq<char>,
)
    requires
        shown@ == old(model)@,
        call_ensures(render::render_html, (shown,), page),
        call_ensures(render::apply_fragment_edit, (model, &page.source_map, node, new_text), r),
        render::first_span(page.source_map@, node@, i),
        old(model)@.nodes.has(node@),
        old(model)@.nodes.map[node@].text.len() <= usize::MAX,
    ensures
        r is Ok,
        final(model)@.nodes.has(k) <==> old(model)@.nodes.has(k),
        final(model)@.nodes.map[node@].text == new_text@,
        final(model)@.nodes.map[node@].kind == old(model)@.nodes.map[node@].kind,
        final(model)@.nodes.map[node@].children == old(model)@.nodes.map[node@].children,
        k != node@ ==> final(model)@.nodes.map[k] == old(model)@.nodes.map[k],
{
    let ids = doc::preorder(shown@.nodes.map, shown@.root);
    render::law_fragment_edit_sets_the_text(old(model)@, ids, node@, new_text@, i);
}

} // verus!
