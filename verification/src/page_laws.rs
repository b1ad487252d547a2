//! What is seen of a document: the order of its nodes, its blocks, its HTML and its table of
//! contents.
use crate::doc;
use crate::doc::{Doc, NodeView};
use crate::ops::{NodeKind, OpView, PatchView, SourceView};
use crate::outline;
use crate::outline::ShownBlock;
use crate::render;
use crate::text;
use crate::tree;
use vstd::prelude::*;

verus! {

// ---------------------------------------------------------------- document order

/// Where the walk of child number `c` begins among the walks of the children.
spec fn offset(m: Map<Seq<char>, NodeView>, kids: Seq<Seq<char>>, c: int, g: nat) -> int {
    doc::walk_children(m, kids, c as nat, g).len() as int
}

proof fn lemma_offset(m: Map<Seq<char>, NodeView>, kids: Seq<Seq<char>>, c: int, n: int, o: int, g: nat)
    requires
        0 <= c < n <= kids.len(),
        0 <= o < doc::walk(m, kids[c], g).len(),
    ensures
        offset(m, kids, c, g) + o < offset(m, kids, n, g),
        doc::walk_children(m, kids, n as nat, g)[offset(m, kids, c, g) + o] == doc::walk(
            m,
            kids[c],
            g,
        )[o],
        offset(m, kids, c + 1, g) == offset(m, kids, c, g) + doc::walk(m, kids[c], g).len(),
        offset(m, kids, c + 1, g) <= offset(m, kids, n, g),
    decreases n,
{
    if c < n - 1 {
        lemma_offset(m, kids, c, n - 1, o, g);
    }
}

proof fn lemma_in_some_child(
    m: Map<Seq<char>, NodeView>,
    kids: Seq<Seq<char>>,
    n: int,
    g: nat,
    k: Seq<char>,
) -> (c: int)
    requires
        0 <= n <= kids.len(),
        doc::walk_children(m, kids, n as nat, g).contains(k),
    ensures
        0 <= c < n,
        doc::walk(m, kids[c], g).contains(k),
    decreases n,
{
    let all = doc::walk_children(m, kids, n as nat, g);
    let x = choose|x: int| 0 <= x < all.len() && all[x] == k;
    let head = doc::walk_children(m, kids, (n - 1) as nat, g);
    if x < head.len() {
        assert(head[x] == k);
        lemma_in_some_child(m, kids, n - 1, g, k)
    } else {
        assert(doc::walk(m, kids[n - 1], g)[x - head.len()] == k);
        n - 1
    }
}

/// Some place of `a` lies before some place of `b`.
spec fn comes_before(w: Seq<Seq<char>>, a: Seq<char>, b: Seq<char>) -> bool {
    exists|x: int, y: int| 0 <= x < y < w.len() && #[trigger] w[x] == a && #[trigger] w[y] == b
}

proof fn lemma_child_order_kept(
    m: Map<Seq<char>, NodeView>,
    id: Seq<char>,
    f: nat,
    c: int,
    a: Seq<char>,
    b: Seq<char>,
)
    requires
        doc::whole(m, id, f),
        0 <= c < m[id].children.len(),
        comes_before(doc::walk(m, m[id].children[c], (f - 1) as nat), a, b),
    ensures
        comes_before(doc::walk(m, id, f), a, b),
{
    let kids = m[id].children;
    let g = (f - 1) as nat;
    let v = doc::walk(m, kids[c], g);
    let w = doc::walk(m, id, f);
    let (x, y) = choose|x: int, y: int|
        0 <= x < y < v.len() && #[trigger] v[x] == a && #[trigger] v[y] == b;
    lemma_offset(m, kids, c, kids.len() as int, x, g);
    lemma_offset(m, kids, c, kids.len() as int, y, g);
    let at = 1 + offset(m, kids, c, g);
    assert(w[at + x] == a && w[at + y] == b);
}

proof fn lemma_parent_first(
    m: Map<Seq<char>, NodeView>,
    id: Seq<char>,
    f: nat,
    p: Seq<char>,
    i: int,
    k: Seq<char>,
)
    requires
        doc::whole(m, id, f),
        doc::walk(m, id, f).contains(p),
        tree::lists(m, p, i, k),
    ensures
        comes_before(doc::walk(m, id, f), p, k),
    decreases f,
{
    let kids = m[id].children;
    let g = (f - 1) as nat;
    let w = doc::walk(m, id, f);
    if p == id {
        assert(doc::whole(m, kids[i], g));
        lemma_offset(m, kids, i, kids.len() as int, 0, g);
        assert(w[0] == p && w[1 + offset(m, kids, i, g)] == k);
    } else {
        let x = choose|x: int| 0 <= x < w.len() && w[x] == p;
        let tail = doc::walk_children(m, kids, kids.len(), g);
        assert(tail[x - 1] == p);
        assert(tail.contains(p));
        let c = lemma_in_some_child(m, kids, kids.len() as int, g, p);
        assert(doc::whole(m, kids[c], g));
        lemma_parent_first(m, kids[c], g, p, i, k);
        lemma_child_order_kept(m, id, f, c, p, k);
    }
}

proof fn lemma_siblings_in_order(
    m: Map<Seq<char>, NodeView>,
    id: Seq<char>,
    f: nat,
    p: Seq<char>,
    i: int,
    j: int,
    a: Seq<char>,
    b: Seq<char>,
)
    requires
        doc::whole(m, id, f),
        doc::walk(m, id, f).contains(p),
        m.dom().contains(p),
        0 <= i < j < m[p].children.len(),
        tree::reachable(m, m[p].children[i], a),
        tree::reachable(m, m[p].children[j], b),
    ensures
        comes_before(doc::walk(m, id, f), a, b),
    decreases f,
{
    let kids = m[id].children;
    let g = (f - 1) as nat;
    let w = doc::walk(m, id, f);
    let n = kids.len() as int;
    if p == id {
        assert(doc::whole(m, kids[i], g) && doc::whole(m, kids[j], g));
        let s = choose|s: nat| tree::hangs(m, kids[i], a, s);
        let t = choose|t: nat| tree::hangs(m, kids[j], b, t);
        tree::lemma_walk_reaches(m, kids[i], g, a, s);
        tree::lemma_walk_reaches(m, kids[j], g, b, t);
        let u = doc::walk(m, kids[i], g);
        let v = doc::walk(m, kids[j], g);
        let x = choose|x: int| 0 <= x < u.len() && u[x] == a;
        let y = choose|y: int| 0 <= y < v.len() && v[y] == b;
        lemma_offset(m, kids, i, n, x, g);
        lemma_offset(m, kids, j, n, y, g);
        lemma_offset(m, kids, i, j, x, g);
        assert(w[1 + offset(m, kids, i, g) + x] == a);
        assert(w[1 + offset(m, kids, j, g) + y] == b);
    } else {
        let x = choose|x: int| 0 <= x < w.len() && w[x] == p;
        let tail = doc::walk_children(m, kids, kids.len(), g);
        assert(tail[x - 1] == p);
        assert(tail.contains(p));
        let c = lemma_in_some_child(m, kids, n, g, p);
        assert(doc::whole(m, kids[c], g));
        lemma_siblings_in_order(m, kids[c], g, p, i, j, a, b);
        lemma_child_order_kept(m, id, f, c, a, b);
    }
}

/// Document order: it begins with the root and holds every node once; a node comes before its
/// children; and all that stands at or below a child comes before all that stands at or below a
/// later child.
pub proof fn law_document_order(doc: Doc, x: int, y: int, p: Seq<char>, i: int, j: int)
    requires
        doc.sound(),
        0 <= x < doc::preorder(doc.nodes.map, doc.root).len(),
        0 <= y < doc::preorder(doc.nodes.map, doc.root).len(),
    ensures
        ({
            let m = doc.nodes.map;
            let order = doc::preorder(m, doc.root);
            &&& order[0] == doc.root
            &&& order.no_duplicates()
            &&& m.dom().contains(order[x])
            &&& m.dom().contains(p) ==> order.contains(p)
            &&& tree::lists(m, order[x], i, order[y]) ==> x < y
            &&& m.dom().contains(p) && 0 <= i < j < m[p].children.len() && tree::reachable(
                m,
                m[p].children[i],
                order[x],
            ) && tree::reachable(m, m[p].children[j], order[y]) ==> x < y
        }),
{
    let m = doc.nodes.map;
    let order = doc::preorder(m, doc.root);
    assert(doc::grounded(m, doc.root));
    let f = choose|f: nat| doc::whole(m, doc.root, f);
    tree::lemma_whole_bounded(m, doc.root, f);
    doc::lemma_preorder(m, doc.root, f);
    tree::lemma_walk_distinct(m, doc.root, f);
    assert(order.contains(order[x]) && order.contains(order[y]));
    outline::lemma_walk_exists(m, doc.root, f, x);
    if m.dom().contains(p) {
        outline::lemma_preorder_is_complete(doc, p);
    }
    if tree::lists(m, order[x], i, order[y]) {
        lemma_parent_first(m, doc.root, f, order[x], i, order[y]);
    }
    if m.dom().contains(p) && 0 <= i < j < m[p].children.len() && tree::reachable(
        m,
        m[p].children[i],
        order[x],
    ) && tree::reachable(m, m[p].children[j], order[y]) {
        lemma_siblings_in_order(m, doc.root, f, p, i, j, order[x], order[y]);
    }
}

// ---------------------------------------------------------------- blocks

/// The blocks of a list of nodes: a node with text adds one block at the end, with its id, its kind
/// and its text; a node without text adds none.
pub proof fn law_blocks_of_nodes(m: Map<Seq<char>, NodeView>, ids: Seq<Seq<char>>, id: Seq<char>)
    ensures
        outline::blocks_of(m, Seq::empty()).len() == 0,
        m[id].text.len() == 0 ==> outline::blocks_of(m, ids.push(id)) == outline::blocks_of(m, ids),
        m[id].text.len() > 0 ==> {
            let all = outline::blocks_of(m, ids.push(id));
            &&& all.len() == outline::blocks_of(m, ids).len() + 1
            &&& all.drop_last() == outline::blocks_of(m, ids)
            &&& all.last().node == id
            &&& all.last().kind == m[id].kind
            &&& all.last().text == m[id].text
        },
{
    assert(ids.push(id).drop_last() =~= ids);
    assert(outline::blocks_of(m, ids.push(id)).drop_last() =~= outline::blocks_of(m, ids)
        || m[id].text.len() == 0);
}

/// The texts of blocks by node are the texts of the blocks: each node has the text of its last
/// block, and no other node has one.
pub proof fn law_texts_by_node(blocks: Seq<ShownBlock>, b: ShownBlock, k: Seq<char>)
    ensures
        outline::texts_of(Seq::empty()).map.dom() == Set::<Seq<char>>::empty(),
        outline::texts_of(blocks.push(b)).map.dom().contains(k) <==> k == b.node
            || outline::texts_of(blocks).map.dom().contains(k),
        outline::texts_of(blocks.push(b)).map[b.node] == b.text,
        k != b.node && outline::texts_of(blocks).map.dom().contains(k) ==> outline::texts_of(
            blocks.push(b),
        ).map[k] == outline::texts_of(blocks).map[k],
{
    lemma_texts_prefix(blocks, b, blocks.len() as int);
}

proof fn lemma_texts_prefix(blocks: Seq<ShownBlock>, b: ShownBlock, n: int)
    requires
        n <= blocks.len(),
    ensures
        outline::texts_by_node(blocks.push(b), n) == outline::texts_by_node(blocks, n),
    decreases n,
{
    if n > 0 {
        lemma_texts_prefix(blocks, b, n - 1);
    }
}

// ---------------------------------------------------------------- HTML

/// The level of a heading element: that of the heading, brought into 1 to 6.
pub open spec fn element_level(level: int) -> int {
    if level < 1 {
        1
    } else if level > 6 {
        6
    } else {
        level
    }
}

/// The elements: a heading is `h` and the digit of its level, a paragraph is `p`, and what is opaque
/// is `pre`. So headings of different levels from 1 to 6 have different elements, and none has that
/// of a paragraph.
pub proof fn law_elements(level: usize, other: usize)
    ensures
        ({
            let tag = render::tag_of(NodeKind::Heading { level });
            &&& tag.len() == 2
            &&& tag[0] == 'h'
            &&& tag[1] as u32 == '0' as u32 + element_level(level as int)
            &&& tag == "h"@ + text::decimal(element_level(level as int) as nat)
            &&& 1 <= level <= 6 && 1 <= other <= 6 && level != other ==> tag != render::tag_of(
                NodeKind::Heading { level: other },
            )
            &&& tag != render::tag_of(NodeKind::Paragraph)
        }),
        render::tag_of(NodeKind::Paragraph) == seq!['p'],
        render::tag_of(NodeKind::Opaque) == seq!['p', 'r', 'e'],
{
    reveal_strlit("h1");
    reveal_strlit("h2");
    reveal_strlit("h3");
    reveal_strlit("h4");
    reveal_strlit("h5");
    reveal_strlit("h6");
    reveal_strlit("p");
    reveal_strlit("pre");
    reveal_strlit("h");
    let l = element_level(level as int) as nat;
    let tag = render::tag_of(NodeKind::Heading { level });
    crate::text_laws::law_decimal_notation(0, l);
    assert(tag =~= "h"@ + text::decimal(l));
    assert(render::tag_of(NodeKind::Paragraph) =~= seq!['p']);
    assert(render::tag_of(NodeKind::Opaque) =~= seq!['p', 'r', 'e']);
    if 1 <= other <= 6 && 1 <= level <= 6 && level != other {
        assert(tag[1] != render::tag_of(NodeKind::Heading { level: other })[1]);
    }
}

/// The HTML of a list of nodes: a node with text adds its element at the end, with its id as
/// `data-node` and its text inside; a node without text adds nothing.
pub proof fn law_html_of_nodes(m: Map<Seq<char>, NodeView>, ids: Seq<Seq<char>>, id: Seq<char>)
    ensures
        render::html_of(m, Seq::empty()).len() == 0,
        m[id].text.len() == 0 ==> render::html_of(m, ids.push(id)) == render::html_of(m, ids),
        m[id].text.len() > 0 ==> render::html_of(m, ids.push(id)) == render::html_of(m, ids) + (
        seq!['<'] + render::tag_of(m[id].kind) + " data-node=\""@ + render::escaped_attr(id)
            + seq!['"', '>'] + render::escaped_text(m[id].text) + seq!['<', '/'] + render::tag_of(
            m[id].kind,
        ) + seq!['>']),
{
    reveal_strlit("<");
    reveal_strlit("\">");
    reveal_strlit("</");
    reveal_strlit(">");
    assert(ids.push(id).drop_last() =~= ids);
    assert("<"@ =~= seq!['<'] && "\">"@ =~= seq!['"', '>'] && "</"@ =~= seq!['<', '/'] && ">"@
        =~= seq!['>']);
    if m[id].text.len() == 0 {
        assert(render::html_of(m, ids.push(id)) =~= render::html_of(m, ids));
    }
}

/// Escaping: in a text `&`, `<` and `>` are written as entities, in an id `&` and `"`; every other
/// character is written as it is, and the order stays.
pub proof fn law_escaping(s: Seq<char>, c: char)
    ensures
        render::escaped_text(Seq::empty()).len() == 0,
        render::escaped_attr(Seq::empty()).len() == 0,
        render::escaped_text(s.push(c)) == render::escaped_text(s) + (if c == '&' {
            seq!['&', 'a', 'm', 'p', ';']
        } else if c == '<' {
            seq!['&', 'l', 't', ';']
        } else if c == '>' {
            seq!['&', 'g', 't', ';']
        } else {
            seq![c]
        }),
        render::escaped_attr(s.push(c)) == render::escaped_attr(s) + (if c == '&' {
            seq!['&', 'a', 'm', 'p', ';']
        } else if c == '"' {
            seq!['&', 'q', 'u', 'o', 't', ';']
        } else {
            seq![c]
        }),
{
    reveal_strlit("&amp;");
    reveal_strlit("&lt;");
    reveal_strlit("&gt;");
    reveal_strlit("&quot;");
    assert(s.push(c).drop_last() =~= s);
    assert("&amp;"@ =~= seq!['&', 'a', 'm', 'p', ';']);
    assert("&lt;"@ =~= seq!['&', 'l', 't', ';']);
    assert("&gt;"@ =~= seq!['&', 'g', 't', ';']);
    assert("&quot;"@ =~= seq!['&', 'q', 'u', 'o', 't', ';']);
}

/// The source map of a list of nodes: a node with text that is not opaque adds one fragment at the
/// end, from the first character of its text to the last; any other node adds none.
pub proof fn law_spans_of_nodes(m: Map<Seq<char>, NodeView>, ids: Seq<Seq<char>>, id: Seq<char>)
    requires
        m[id].text.len() <= usize::MAX,
    ensures
        render::spans_of(m, Seq::empty()).len() == 0,
        m[id].text.len() == 0 || m[id].kind == NodeKind::Opaque ==> render::spans_of(
            m,
            ids.push(id),
        ) == render::spans_of(m, ids),
        m[id].text.len() > 0 && m[id].kind != NodeKind::Opaque ==> {
            let all = render::spans_of(m, ids.push(id));
            &&& all.len() == render::spans_of(m, ids).len() + 1
            &&& all.drop_last() == render::spans_of(m, ids)
            &&& all.last().node == id
            &&& all.last().range.start.0 == 0
            &&& all.last().range.end.0 == m[id].text.len()
        },
{
    assert(ids.push(id).drop_last() =~= ids);
    let rest = render::spans_of(m, ids);
    if m[id].text.len() == 0 || m[id].kind == NodeKind::Opaque {
        assert(render::spans_of(m, ids.push(id)) =~= rest);
    } else {
        assert(render::spans_of(m, ids.push(id)).drop_last() =~= rest);
    }
}

// ---------------------------------------------------------------- table of contents

/// The titles of a list of nodes: a heading, of any level, adds its text at the end; any other node
/// adds nothing.
pub proof fn law_titles_of_nodes(m: Map<Seq<char>, NodeView>, ids: Seq<Seq<char>>, id: Seq<char>)
    ensures
        doc::titles(m, Seq::empty()).len() == 0,
        !(m[id].kind is Heading) ==> doc::titles(m, ids.push(id)) == doc::titles(m, ids),
        m[id].kind is Heading ==> doc::titles(m, ids.push(id)) == doc::titles(m, ids).push(
            m[id].text,
        ),
{
    reveal(Seq::filter);
    let pred = |k: Seq<char>| m[k].kind is Heading;
    assert(ids.push(id).drop_last() =~= ids);
    assert(doc::titles(m, ids.push(id)) =~= if m[id].kind is Heading {
        doc::titles(m, ids).push(m[id].text)
    } else {
        doc::titles(m, ids)
    });
}

/// The text is a table of these titles: one line for each, `- ` and the title, with a line feed
/// between two lines.
pub open spec fn tabulates(md: Seq<char>, titles: Seq<Seq<char>>) -> bool
    decreases titles.len(),
{
    if titles.len() == 0 {
        md.len() == 0
    } else if titles.len() == 1 {
        md == seq!['-', ' '] + titles[0]
    } else {
        let line = seq!['\n', '-', ' '] + titles.last();
        let n = md.len() - line.len();
        n >= 0 && md.skip(n) == line && tabulates(md.take(n), titles.drop_last())
    }
}

proof fn lemma_tabulates(titles: Seq<Seq<char>>)
    ensures
        tabulates(
            text::joined(titles.map_values(|t: Seq<char>| "- "@ + t), "\n"@),
            titles,
        ),
    decreases titles.len(),
{
    reveal_strlit("- ");
    reveal_strlit("\n");
    let lines = titles.map_values(|t: Seq<char>| "- "@ + t);
    assert("- "@ =~= seq!['-', ' ']);
    if titles.len() == 1 {
        assert(lines[0] == "- "@ + titles[0]);
    }
    if titles.len() > 1 {
        lemma_tabulates(titles.drop_last());
        let short = titles.drop_last().map_values(|t: Seq<char>| "- "@ + t);
        assert(lines.drop_last() =~= short);
        let rest = text::joined(short, "\n"@);
        let md = text::joined(lines, "\n"@);
        assert(lines.last() == "- "@ + titles.last());
        assert(md == rest + "\n"@ + lines.last());
        assert("\n"@ =~= seq!['\n']);
        assert(md =~= rest + seq!['\n', '-', ' '] + titles.last());
        let line = seq!['\n', '-', ' '] + titles.last();
        let n = md.len() - line.len();
        assert(md.skip(n) =~= line);
        assert(md.take(n) =~= rest);
    }
}

/// The table of contents is brought up to date exactly if one is registered and there, and some
/// patch has a heading for its target. Then there is one patch: it sets the text of the table of
/// contents to a table of the titles of all headings in document order, comes from the first patch
/// of a heading, and depends on all of them.
pub proof fn law_table_of_contents(doc: Doc, authored: Seq<PatchView>, i: int)
    requires
        0 <= i < authored.len(),
        doc.nodes.has(authored[i].target) && doc.nodes.map[authored[i].target].kind is Heading,
    ensures
        ({
            let due = doc.toc is Some && doc.nodes.map.dom().contains(doc.toc->Some_0);
            let derived = doc.derived_patches(authored);
            &&& derived.len() == if due {
                1nat
            } else {
                0nat
            }
            &&& due ==> {
                let p = derived[0];
                &&& p.id == "derive:toc"@
                &&& p.target == doc.toc->Some_0
                &&& p.depends_on.len() > 0
                &&& p.source == (SourceView::Derived { from: p.depends_on[0] })
                &&& p.depends_on.contains(authored[i].id)
                &&& p.op matches OpView::SetMarkdown { md }
                &&& tabulates(
                    md,
                    doc::titles(doc.nodes.map, doc::preorder(doc.nodes.map, doc.root)),
                )
            }
        }),
{
    let touches = |p: PatchView|
        doc.nodes.has(p.target) && doc.nodes.map[p.target].kind is Heading;
    let kept = authored.filter(touches);
    broadcast use vstd::seq_lib::group_filter_ensures;

    assert(touches(authored[i]));
    assert(kept.contains(authored[i]));
    let j = choose|j: int| 0 <= j < kept.len() && kept[j] == authored[i];
    assert(doc.heading_patches(authored)[j] == authored[i].id);
    lemma_tabulates(doc::titles(doc.nodes.map, doc::preorder(doc.nodes.map, doc.root)));
}

/// Patches that touch no heading call for no update of the table of contents.
pub proof fn law_no_heading_no_update(doc: Doc, authored: Seq<PatchView>)
    requires
        forall|i: int|
            0 <= i < authored.len() ==> !(doc.nodes.has((#[trigger] authored[i]).target)
                && doc.nodes.map[authored[i].target].kind is Heading),
    ensures
        doc.derived_patches(authored).len() == 0,
{
    let touches = |p: PatchView|
        doc.nodes.has(p.target) && doc.nodes.map[p.target].kind is Heading;
    lemma_none_kept(authored, touches);
}

proof fn lemma_none_kept(s: Seq<PatchView>, pred: spec_fn(PatchView) -> bool)
    requires
        forall|i: int| 0 <= i < s.len() ==> !pred(#[trigger] s[i]),
    ensures
        s.filter(pred).len() == 0,
    decreases s.len(),
{
    reveal(Seq::filter);
    if s.len() > 0 {
        lemma_none_kept(s.drop_last(), pred);
        assert(!pred(s[s.len() - 1]));
    }
}

/// The patches of headings that an update depends on stand in the order of the set: a further patch
/// is added at the end if it touches a heading, and not otherwise.
pub proof fn law_dependencies_of_the_update(doc: Doc, authored: Seq<PatchView>, p: PatchView)
    ensures
        doc.heading_patches(authored.push(p)) == if doc.nodes.has(p.target)
            && doc.nodes.map[p.target].kind is Heading {
            doc.heading_patches(authored).push(p.id)
        } else {
            doc.heading_patches(authored)
        },
        doc.heading_patches(Seq::empty()).len() == 0,
        doc.derived_patches(authored).len() > 0 ==> doc.derived_patches(authored)[0].depends_on
            == doc.heading_patches(authored),
{
    reveal(Seq::filter);
    assert(authored.push(p).drop_last() =~= authored);
    assert(doc.heading_patches(authored.push(p)) =~= if doc.nodes.has(p.target)
        && doc.nodes.map[p.target].kind is Heading {
        doc.heading_patches(authored).push(p.id)
    } else {
        doc.heading_patches(authored)
    });
}

} // verus!
