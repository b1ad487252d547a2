//! Rendering to HTML with a source map, and writing an edited fragment back.
use crate::commit;
use crate::commit::{CommitError, CommitErrorView, DocumentModel};
use crate::doc;
use crate::doc::{Doc, NodeView};
use crate::offsets::{CharIndex, CharRange, Pos};
use crate::ops;
use crate::ops::{NodeId, NodeKind, Op, OpView, Patch, PatchView, SourceView, Target};
use crate::patchset;
use crate::patchset::PatchSet;
use crate::prose::ProseModel;
use crate::text::same_text;
use vstd::prelude::*;
use vstd::string::*;

verus! {

/// Where a rendered fragment comes from: a node and a range of characters in its text.
#[derive(Debug, PartialEq)]
pub struct SourceSpan {
    pub node: NodeId,
    pub range: CharRange,
}

/// What a `SourceSpan` holds.
#[verifier::ext_equal]
pub struct SpanView {
    pub node: Seq<char>,
    pub range: CharRange,
}

impl View for SourceSpan {
    type V = SpanView;

    open spec fn view(&self) -> SpanView {
        SpanView { node: self.node@, range: self.range }
    }
}

impl Clone for SourceSpan {
    fn clone(&self) -> (r: Self)
        ensures
            r == *self,
    {
        SourceSpan { node: self.node.clone(), range: self.range }
    }
}

/// The fragments of a rendering, in document order.
#[derive(Debug, PartialEq)]
pub struct SourceMap {
    pub spans: Vec<SourceSpan>,
}

impl View for SourceMap {
    type V = Seq<SpanView>;

    open spec fn view(&self) -> Seq<SpanView> {
        ops::seen(self.spans@)
    }
}

impl Clone for SourceMap {
    fn clone(&self) -> (r: Self)
        ensures
            r@ == self@,
    {
        let mut spans: Vec<SourceSpan> = Vec::new();
        let mut i: usize = 0;
        while i < self.spans.len()
            invariant
                i <= self.spans@.len(),
                spans@ == self.spans@.take(i as int),
            decreases self.spans@.len() - i,
        {
            spans.push(self.spans[i].clone());
            i += 1;
        }
        proof {
            assert(self.spans@.take(i as int) =~= self.spans@);
        }
        SourceMap { spans }
    }
}

impl Default for SourceMap {
    fn default() -> (r: Self)
        ensures
            r@ == Seq::<SpanView>::empty(),
    {
        let r = SourceMap { spans: Vec::new() };
        proof {
            assert(r@ =~= Seq::empty());
        }
        r
    }
}

/// Fragment number `i` is the first one of this node.
pub open spec fn first_span(spans: Seq<SpanView>, node: Seq<char>, i: int) -> bool {
    &&& 0 <= i < spans.len()
    &&& spans[i].node == node
    &&& forall|j: int| 0 <= j < i ==> (#[trigger] spans[j]).node != node
}

impl SourceMap {
    /// The first fragment of a node.
    pub fn span_for(&self, node: &NodeId) -> (r: Option<&SourceSpan>)
        ensures
            match r {
                Some(s) => exists|i: int|
                    #[trigger] first_span(self@, node@, i) && s@ == self@[i],
                None => forall|i: int|
                    0 <= i < self@.len() ==> (#[trigger] self@[i]).node != node@,
            },
    {
        let mut i: usize = 0;
        while i < self.spans.len()
            invariant
                i <= self.spans@.len(),
                forall|j: int| 0 <= j < i ==> (#[trigger] self@[j]).node != node@,
            decreases self.spans@.len() - i,
        {
            if same_text(self.spans[i].node.0.as_str(), node.0.as_str()) {
                proof {
                    assert(first_span(self@, node@, i as int));
                }
                return Some(&self.spans[i]);
            }
            i += 1;
        }
        None
    }
}

/// A rendering: the HTML and where its fragments come from.
#[derive(Debug, PartialEq)]
pub struct Rendered {
    pub html: String,
    pub source_map: SourceMap,
}

impl Clone for Rendered {
    fn clone(&self) -> (r: Self)
        ensures
            r.html@ == self.html@,
            r.source_map@ == self.source_map@,
    {
        Rendered { html: self.html.clone(), source_map: self.source_map.clone() }
    }
}

impl Default for Rendered {
    fn default() -> (r: Self)
        ensures
            r.html@ == Seq::<char>::empty(),
            r.source_map@ == Seq::<SpanView>::empty(),
    {
        Rendered { html: String::new(), source_map: SourceMap::default() }
    }
}

// ---------------------------------------------------------------- escaping

/// How a character of a text is written.
pub open spec fn text_entity(c: char) -> Seq<char> {
    if c == '&' {
        "&amp;"@
    } else if c == '<' {
        "&lt;"@
    } else if c == '>' {
        "&gt;"@
    } else {
        seq![c]
    }
}

/// How a character of an attribute value is written.
pub open spec fn attr_entity(c: char) -> Seq<char> {
    if c == '&' {
        "&amp;"@
    } else if c == '"' {
        "&quot;"@
    } else {
        seq![c]
    }
}

/// A text with its markup characters written as entities.
pub open spec fn escaped_text(s: Seq<char>) -> Seq<char>
    decreases s.len(),
{
    if s.len() == 0 {
        Seq::empty()
    } else {
        escaped_text(s.drop_last()) + text_entity(s.last())
    }
}

/// An attribute value with its markup characters written as entities.
pub open spec fn escaped_attr(s: Seq<char>) -> Seq<char>
    decreases s.len(),
{
    if s.len() == 0 {
        Seq::empty()
    } else {
        escaped_attr(s.drop_last()) + attr_entity(s.last())
    }
}

fn escape_text(s: &str) -> (out: String)
    ensures
        out@ == escaped_text(s@),
{
    let mut out = String::new();
    for c in iter: s.chars()
        invariant
            iter.seq() == s@,
            out@ == escaped_text(s@.take(iter.index())),
    {
        proof {
            assert(s@.take(iter.index() + 1).drop_last() =~= s@.take(iter.index()));
        }
        if c == '&' {
            out.append("&amp;");
        } else if c == '<' {
            out.append("&lt;");
        } else if c == '>' {
            out.append("&gt;");
        } else {
            let ghost was = out@;
            out.push(c);
            proof {
                assert(was.push(c) =~= was + seq![c]);
            }
        }
    }
    proof {
        assert(s@.take(s@.len() as int) =~= s@);
    }
    out
}

fn escape_attr(s: &str) -> (out: String)
    ensures
        out@ == escaped_attr(s@),
{
    let mut out = String::new();
    for c in iter: s.chars()
        invariant
            iter.seq() == s@,
            out@ == escaped_attr(s@.take(iter.index())),
    {
        proof {
            assert(s@.take(iter.index() + 1).drop_last() =~= s@.take(iter.index()));
        }
        if c == '&' {
            out.append("&amp;");
        } else if c == '"' {
            out.append("&quot;");
        } else {
            let ghost was = out@;
            out.push(c);
            proof {
                assert(was.push(c) =~= was + seq![c]);
            }
        }
    }
    proof {
        assert(s@.take(s@.len() as int) =~= s@);
    }
    out
}

// ---------------------------------------------------------------- rendering

/// The HTML element of a block type; the level of a heading is brought into 1 to 6.
pub open spec fn tag_of(kind: NodeKind) -> Seq<char> {
    match kind {
        NodeKind::Heading { level } => if level <= 1 {
            "h1"@
        } else if level == 2 {
            "h2"@
        } else if level == 3 {
            "h3"@
        } else if level == 4 {
            "h4"@
        } else if level == 5 {
            "h5"@
        } else {
            "h6"@
        },
        NodeKind::Opaque => "pre"@,
        NodeKind::Paragraph => "p"@,
    }
}

/// The HTML of one node; nothing for a node without text.
pub open spec fn node_html(id: Seq<char>, node: NodeView) -> Seq<char> {
    if node.text.len() == 0 {
        Seq::empty()
    } else {
        "<"@ + tag_of(node.kind) + " data-node=\""@ + escaped_attr(id) + "\">"@ + escaped_text(
            node.text,
        ) + "</"@ + tag_of(node.kind) + ">"@
    }
}

/// The fragments of one node: its whole text, or nothing when it has no text or is opaque.
pub open spec fn node_spans(id: Seq<char>, node: NodeView) -> Seq<SpanView> {
    if node.text.len() == 0 || node.kind is Opaque {
        Seq::empty()
    } else {
        seq![
            SpanView {
                node: id,
                range: CharRange { start: Pos(0), end: Pos(node.text.len() as usize) },
            },
        ]
    }
}

/// The HTML of the nodes `ids`, one after the other.
pub open spec fn html_of(m: Map<Seq<char>, NodeView>, ids: Seq<Seq<char>>) -> Seq<char>
    decreases ids.len(),
{
    if ids.len() == 0 {
        Seq::empty()
    } else {
        html_of(m, ids.drop_last()) + node_html(ids.last(), m[ids.last()])
    }
}

/// The fragments of the nodes `ids`, one after the other.
pub open spec fn spans_of(m: Map<Seq<char>, NodeView>, ids: Seq<Seq<char>>) -> Seq<SpanView>
    decreases ids.len(),
{
    if ids.len() == 0 {
        Seq::empty()
    } else {
        spans_of(m, ids.drop_last()) + node_spans(ids.last(), m[ids.last()])
    }
}

proof fn lemma_pages_add(m: Map<Seq<char>, NodeView>, a: Seq<Seq<char>>, b: Seq<Seq<char>>)
    ensures
        html_of(m, a + b) == html_of(m, a) + html_of(m, b),
        spans_of(m, a + b) == spans_of(m, a) + spans_of(m, b),
    decreases b.len(),
{
    if b.len() == 0 {
        assert(a + b =~= a);
        assert(html_of(m, a) + html_of(m, b) =~= html_of(m, a));
        assert(spans_of(m, a) + spans_of(m, b) =~= spans_of(m, a));
    } else {
        lemma_pages_add(m, a, b.drop_last());
        assert((a + b).drop_last() =~= a + b.drop_last());
        assert((a + b).last() == b.last());
        assert(html_of(m, a + b) =~= html_of(m, a) + html_of(m, b));
        assert(spans_of(m, a + b) =~= spans_of(m, a) + spans_of(m, b));
    }
}

/// Renders a document: headings as `<h1>` to `<h6>`, opaque blocks as `<pre>`, other nodes with
/// text as `<p>`, in document order.
pub fn render_html(model: &ProseModel) -> (out: Rendered)
    requires
        doc::walkable(model@.nodes.map, model@.root),
    ensures
        ({
            let m = model@.nodes.map;
            let ids = doc::preorder(m, model@.root);
            &&& out.html@ == html_of(m, ids)
            &&& out.source_map@ == spans_of(m, ids)
        }),
{
    let mut out = Rendered::default();
    let root = model.root().clone();
    let ghost m = model@.nodes.map;
    let ghost fuel = choose|f: nat| doc::bounded(m, model@.root, f);
    render_node(model, &root, &mut out, Ghost(fuel));
    proof {
        doc::lemma_preorder(m, model@.root, fuel);
        let ids = doc::preorder(m, model@.root);
        assert(Seq::<char>::empty() + html_of(m, ids) =~= html_of(m, ids));
        assert(Seq::<SpanView>::empty() + spans_of(m, ids) =~= spans_of(m, ids));
    }
    out
}

/// The HTML element of a block type.
fn tag_name(kind: NodeKind) -> (r: &'static str)
    ensures
        r@ == tag_of(kind),
{
    match kind {
        NodeKind::Heading { level } => if level <= 1 {
            "h1"
        } else if level == 2 {
            "h2"
        } else if level == 3 {
            "h3"
        } else if level == 4 {
            "h4"
        } else if level == 5 {
            "h5"
        } else {
            "h6"
        },
        NodeKind::Opaque => "pre",
        NodeKind::Paragraph => "p",
    }
}

fn render_node(model: &ProseModel, id: &NodeId, out: &mut Rendered, Ghost(fuel): Ghost<nat>)
    requires
        doc::bounded(model@.nodes.map, id@, fuel),
    ensures
        ({
            let m = model@.nodes.map;
            let ids = doc::walk(m, id@, fuel);
            &&& final(out).html@ == old(out).html@ + html_of(m, ids)
            &&& final(out).source_map@ == old(out).source_map@ + spans_of(m, ids)
        }),
    decreases fuel,
{
    let ghost m = model@.nodes.map;
    let ghost html0 = out.html@;
    let ghost spans0 = out.source_map@;
    let ghost here = seq![id@];
    proof {
        assert(here.drop_last() =~= Seq::empty());
        reveal_with_fuel(html_of, 2);
        reveal_with_fuel(spans_of, 2);
        assert(html_of(m, here) =~= node_html(id@, m[id@]));
        assert(spans_of(m, here) =~= node_spans(id@, m[id@]));
    }
    if let (Some(text), Some(kind)) = (model.get_text(id), model.node_kind(id)) {
        let len = CharIndex::char_len(text);
        if len > 0 {
            let tag = tag_name(kind);
            let attr = escape_attr(id.0.as_str());
            let body = escape_text(text);
            out.html.append("<");
            out.html.append(tag);
            out.html.append(" data-node=\"");
            out.html.append(attr.as_str());
            out.html.append("\">");
            out.html.append(body.as_str());
            out.html.append("</");
            out.html.append(tag);
            out.html.append(">");
            proof {
                assert(out.html@ =~= html0 + node_html(id@, m[id@]));
            }
            if kind != NodeKind::Opaque {
                let range = CharRange { start: Pos(0), end: Pos(len) };
                out.source_map.spans.push(SourceSpan { node: id.clone(), range });
            }
            proof {
                assert(out.source_map@ =~= spans0 + node_spans(id@, m[id@]));
            }
        } else {
            proof {
                assert(out.html@ =~= html0 + node_html(id@, m[id@]));
                assert(out.source_map@ =~= spans0 + node_spans(id@, m[id@]));
            }
        }
    }
    match model.children(id) {
        None => {
            proof {
                assert(out.html@ =~= html0 + html_of(m, Seq::empty()));
                assert(out.source_map@ =~= spans0 + spans_of(m, Seq::empty()));
            }
        },
        Some(children) => {
            let ghost kids = m[id@].children;
            let ghost less = (fuel - 1) as nat;
            proof {
                assert(doc::walk_children(m, kids, 0, less) =~= Seq::empty());
                assert(here + Seq::<Seq<char>>::empty() =~= here);
            }
            let mut i: usize = 0;
            while i < children.len()
                invariant
                    i <= children@.len(),
                    fuel > 0,
                    less == (fuel - 1) as nat,
                    m == model@.nodes.map,
                    m.dom().contains(id@),
                    kids == m[id@].children,
                    kids == ops::seen(children@),
                    here == seq![id@],
                    doc::bounded(m, id@, fuel),
                    out.html@ == html0 + html_of(
                        m,
                        here + doc::walk_children(m, kids, i as nat, less),
                    ),
                    out.source_map@ == spans0 + spans_of(
                        m,
                        here + doc::walk_children(m, kids, i as nat, less),
                    ),
                decreases children@.len() - i,
            {
                proof {
                    assert(kids[i as int] == children@[i as int]@);
                }
                render_node(model, &children[i], out, Ghost(less));
                proof {
                    let a = here + doc::walk_children(m, kids, i as nat, less);
                    let b = doc::walk(m, kids[i as int], less);
                    lemma_pages_add(m, a, b);
                    assert(a + b =~= here + doc::walk_children(m, kids, (i + 1) as nat, less));
                    assert(html0 + (html_of(m, a) + html_of(m, b)) =~= html0 + html_of(m, a)
                        + html_of(m, b));
                    assert(spans0 + (spans_of(m, a) + spans_of(m, b)) =~= spans0 + spans_of(m, a)
                        + spans_of(m, b));
                }
                i += 1;
            }
        },
    }
}

// ---------------------------------------------------------------- writing back

/// Why an edited fragment could not be written back.
#[derive(Debug, PartialEq)]
pub enum EditError {
    /// The source map has no fragment of this node.
    NoSpan(NodeId),
    /// The commit was refused.
    Commit(CommitError),
}

/// The patch that replaces a fragment.
pub open spec fn fragment_patch(span: SpanView, new_text: Seq<char>) -> PatchView {
    PatchView {
        id: "edit"@,
        source: SourceView::Authored,
        target: span.node,
        op: OpView::SetSpan { range: span.range, text: new_text },
        depends_on: Seq::empty(),
    }
}

/// Writes a whole edited fragment back: finds the fragment of the node in the source map, replaces
/// its range, and returns the inverse set.
pub fn apply_fragment_edit(
    model: &mut ProseModel,
    source_map: &SourceMap,
    node: &NodeId,
    new_text: &str,
) -> (r: Result<PatchSet, EditError>)
    requires
        forall|i: int| #[trigger]
            first_span(source_map@, node@, i) ==> commit::commit_ready::<ProseModel>(
                old(model)@,
                seq![fragment_patch(source_map@[i], new_text@)],
            ),
    ensures
        (forall|i: int| 0 <= i < source_map@.len() ==> (#[trigger] source_map@[i]).node != node@)
            ==> (r matches Err(EditError::NoSpan(n)) && n@ == node@ && final(model)@ == old(model)@),
        forall|i: int| #[trigger]
            first_span(source_map@, node@, i) ==> {
                let (state, result) = commit::commit_outcome::<ProseModel>(
                    old(model)@,
                    seq![fragment_patch(source_map@[i], new_text@)],
                );
                &&& final(model)@ == state
                &&& match r {
                    Ok(inverse) => result == Ok::<Seq<PatchView>, CommitErrorView>(inverse@),
                    Err(EditError::Commit(e)) => result == Err::<Seq<PatchView>, CommitErrorView>(
                        e@,
                    ),
                    Err(EditError::NoSpan(_)) => false,
                }
            },
{
    let span = match source_map.span_for(node) {
        Some(s) => s,
        None => return Err(EditError::NoSpan(node.clone())),
    };
    let ghost at = choose|i: int|
        #[trigger] first_span(source_map@, node@, i) && span@ == source_map@[i];
    let patch = Patch::authored(
        "edit",
        Target::Node(node.clone()),
        Op::SetSpan { range: span.range, text: new_text.to_string() },
    );
    let mut list: Vec<Patch> = Vec::new();
    list.push(patch);
    let set = PatchSet::new(list);
    proof {
        assert(set@ =~= seq![fragment_patch(source_map@[at], new_text@)]);
        assert forall|i: int| #[trigger] first_span(source_map@, node@, i) implies i == at by {
            lemma_first_span_unique(source_map@, node@, i, at);
        }
    }
    match commit(model, &set) {
        Ok(inverse) => Ok(inverse),
        Err(e) => Err(EditError::Commit(e)),
    }
}

proof fn lemma_first_span_unique(spans: Seq<SpanView>, node: Seq<char>, i: int, j: int)
    requires
        first_span(spans, node, i),
        first_span(spans, node, j),
    ensures
        i == j,
{
    if i < j {
        assert(spans[i].node != node);
    } else if j < i {
        assert(spans[j].node != node);
    }
}

// ---------------------------------------------------------------- laws

/// Every fragment of a rendering is the whole text of a node of the document that is not opaque.
pub proof fn law_spans_cover_whole_texts(m: Map<Seq<char>, NodeView>, ids: Seq<Seq<char>>, i: int)
    requires
        0 <= i < spans_of(m, ids).len(),
    ensures
        ({
            let s = spans_of(m, ids)[i];
            &&& ids.contains(s.node)
            &&& !(m[s.node].kind is Opaque)
            &&& m[s.node].text.len() > 0
            &&& s.range == CharRange { start: Pos(0), end: Pos(m[s.node].text.len() as usize) }
        }),
    decreases ids.len(),
{
    if ids.len() > 0 {
        let rest = ids.drop_last();
        if i < spans_of(m, rest).len() {
            law_spans_cover_whole_texts(m, rest, i);
            let k = choose|k: int| 0 <= k < rest.len() && rest[k] == spans_of(m, rest)[i].node;
            assert(ids[k] == spans_of(m, ids)[i].node);
        } else {
            assert(ids[ids.len() - 1] == spans_of(m, ids)[i].node);
        }
    }
}

/// A node with text that is not opaque has a fragment; an opaque node, or one without text, has
/// none.
pub proof fn law_editable_nodes_have_spans(
    m: Map<Seq<char>, NodeView>,
    ids: Seq<Seq<char>>,
    node: Seq<char>,
)
    ensures
        (exists|i: int| 0 <= i < spans_of(m, ids).len() && (#[trigger] spans_of(m, ids)[i]).node == node)
            <==> ids.contains(node) && m[node].text.len() > 0 && !(m[node].kind is Opaque),
    decreases ids.len(),
{
    let spans = spans_of(m, ids);
    if exists|i: int| 0 <= i < spans.len() && (#[trigger] spans[i]).node == node {
        let i = choose|i: int| 0 <= i < spans.len() && (#[trigger] spans[i]).node == node;
        law_spans_cover_whole_texts(m, ids, i);
    }
    if ids.contains(node) && m[node].text.len() > 0 && !(m[node].kind is Opaque) {
        let rest = ids.drop_last();
        let k = choose|k: int| 0 <= k < ids.len() && ids[k] == node;
        if k < rest.len() {
            assert(rest[k] == node);
            law_editable_nodes_have_spans(m, rest, node);
            let i = choose|i: int|
                0 <= i < spans_of(m, rest).len() && (#[trigger] spans_of(m, rest)[i]).node == node;
            assert(spans[i] == spans_of(m, rest)[i]);
        } else {
            assert(spans[spans.len() - 1].node == node);
        }
    }
}

pub proof fn lemma_some_first_span(spans: Seq<SpanView>, node: Seq<char>, n: int)
    requires
        0 <= n <= spans.len(),
        exists|i: int| 0 <= i < n && (#[trigger] spans[i]).node == node,
    ensures
        exists|i: int| first_span(spans, node, i),
    decreases n,
{
    if exists|i: int| 0 <= i < n - 1 && (#[trigger] spans[i]).node == node {
        lemma_some_first_span(spans, node, n - 1);
    } else {
        assert(first_span(spans, node, n - 1));
    }
}

/// What committing a single patch without dependencies gives.
pub proof fn lemma_commit_one(doc: Doc, p: PatchView)
    requires
        !p.unreviewed(),
        p.depends_on.len() == 0,
    ensures
        commit::commit_ready::<ProseModel>(doc, seq![p]) <== doc.op_ready(p.target, p.op),
        commit::commit_outcome::<ProseModel>(doc, seq![p]) == match doc.applied(p.target, p.op) {
            Ok((next, inverse)) => (
                next,
                Ok::<Seq<PatchView>, CommitErrorView>(seq![commit::inverse_patch(p, inverse)]),
            ),
            Err(cause) => (
                doc,
                Err::<Seq<PatchView>, CommitErrorView>(
                    CommitErrorView::Aborted { patch: p.id, cause },
                ),
            ),
        },
        patchset::topo(seq![p]) is Ok,
        commit::ordered(seq![p]) == seq![p],
{
    let ps = seq![p];
    patchset::law_order_without_dependencies_is_input_order(ps);
    let list = commit::ordered(ps);
    assert(list =~= ps);
    assert(commit::all_reviewed(ps));
    match doc.applied(p.target, p.op) {
        Ok((next, inverse)) => {
            let invs = Seq::<PatchView>::empty().push(commit::inverse_patch(p, inverse));
            assert(commit::run_from::<ProseModel>(next, ps, 1, invs) == (commit::Run::Done {
                state: next,
                inverses: invs,
            }));
            assert(invs.reverse() =~= seq![commit::inverse_patch(p, inverse)]);
            assert(commit::run_ready_from::<ProseModel>(next, ps, 1, invs));
        },
        Err(cause) => {
            assert(commit::rollback::<ProseModel>(doc, Seq::empty()) == doc);
        },
    }
}

/// Editing what is seen: a fragment of a rendering is replaced as a whole. The commit succeeds,
/// the node has the new text, and its kind and children and all other nodes are as before.
pub proof fn law_fragment_edit_sets_the_text(
    doc: Doc,
    ids: Seq<Seq<char>>,
    node: Seq<char>,
    new_text: Seq<char>,
    i: int,
)
    requires
        first_span(spans_of(doc.nodes.map, ids), node, i),
        doc.nodes.has(node),
        doc.nodes.map[node].text.len() <= usize::MAX,
    ensures
        ({
            let patch = fragment_patch(spans_of(doc.nodes.map, ids)[i], new_text);
            let (next, result) = commit::commit_outcome::<ProseModel>(doc, seq![patch]);
            &&& commit::commit_ready::<ProseModel>(doc, seq![patch]) <== doc.rev < u64::MAX
            &&& result is Ok
            &&& next.nodes == doc.nodes.put(node, doc.nodes.map[node].with_text(new_text))
            &&& next.root == doc.root
            &&& next.toc == doc.toc
        }),
{
    let m = doc.nodes.map;
    let spans = spans_of(m, ids);
    let patch = fragment_patch(spans[i], new_text);
    law_spans_cover_whole_texts(m, ids, i);
    lemma_commit_one(doc, patch);
    let text = m[node].text;
    assert(doc::splice(text, spans[i].range, new_text) =~= new_text);
}

/// A text cannot pose as markup: what is written for it holds no angle bracket, and what is written
/// for an id holds no quotation mark.
pub proof fn law_texts_cannot_pose_as_markup(s: Seq<char>, i: int)
    ensures
        0 <= i < escaped_text(s).len() ==> escaped_text(s)[i] != '<' && escaped_text(s)[i] != '>',
        0 <= i < escaped_attr(s).len() ==> escaped_attr(s)[i] != '"',
    decreases s.len(),
{
    if s.len() > 0 {
        law_texts_cannot_pose_as_markup(s.drop_last(), i);
        reveal_strlit("&amp;");
        reveal_strlit("&lt;");
        reveal_strlit("&gt;");
        reveal_strlit("&quot;");
        let t = escaped_text(s.drop_last());
        if t.len() <= i < escaped_text(s).len() {
            assert(escaped_text(s)[i] == text_entity(s.last())[i - t.len()]);
        }
        let a = escaped_attr(s.drop_last());
        if a.len() <= i < escaped_attr(s).len() {
            assert(escaped_attr(s)[i] == attr_entity(s.last())[i - a.len()]);
        }
    }
}

} // verus!
