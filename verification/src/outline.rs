//! A document as a flat list of blocks, for display and for comparing.
use crate::commit::DocumentModel;
use crate::doc;
use crate::doc::{Doc, NodeView};
use crate::ops;
use crate::ops::{NodeId, NodeKind};
use crate::prose::ProseModel;
use crate::text;
use crate::textmap::{Dict, TextMap};
use crate::tree;
use vstd::prelude::*;
use vstd::string::*;

verus! {

/// One block on show: its node, its type, and its text, which an editor may change before it is
/// written back.
#[derive(Debug, PartialEq)]
pub struct ViewBlock {
    pub node: NodeId,
    pub kind: NodeKind,
    pub text: String,
}

/// What a `ViewBlock` holds.
#[verifier::ext_equal]
pub struct ShownBlock {
    pub node: Seq<char>,
    pub kind: NodeKind,
    pub text: Seq<char>,
}

impl View for ViewBlock {
    type V = ShownBlock;

    open spec fn view(&self) -> ShownBlock {
        ShownBlock { node: self.node@, kind: self.kind, text: self.text@ }
    }
}

impl Clone for ViewBlock {
    fn clone(&self) -> (r: Self)
        ensures
            r == *self,
    {
        ViewBlock { node: self.node.clone(), kind: self.kind, text: self.text.clone() }
    }
}

/// The blocks of the nodes `ids` that have text.
pub open spec fn blocks_of(m: Map<Seq<char>, NodeView>, ids: Seq<Seq<char>>) -> Seq<ShownBlock>
    decreases ids.len(),
{
    if ids.len() == 0 {
        Seq::empty()
    } else {
        let rest = blocks_of(m, ids.drop_last());
        let node = m[ids.last()];
        if node.text.len() == 0 {
            rest
        } else {
            rest.push(ShownBlock { node: ids.last(), kind: node.kind, text: node.text })
        }
    }
}

/// The blocks of a document: its nodes with text, in document order.
pub open spec fn shown(doc: Doc) -> Seq<ShownBlock> {
    blocks_of(doc.nodes.map, doc::preorder(doc.nodes.map, doc.root))
}

proof fn lemma_blocks_add(m: Map<Seq<char>, NodeView>, a: Seq<Seq<char>>, b: Seq<Seq<char>>)
    ensures
        blocks_of(m, a + b) == blocks_of(m, a) + blocks_of(m, b),
    decreases b.len(),
{
    if b.len() == 0 {
        assert(a + b =~= a);
        assert(blocks_of(m, a) + blocks_of(m, b) =~= blocks_of(m, a));
    } else {
        lemma_blocks_add(m, a, b.drop_last());
        assert((a + b).drop_last() =~= a + b.drop_last());
        assert(blocks_of(m, a + b) =~= blocks_of(m, a) + blocks_of(m, b));
    }
}

fn walk_blocks(model: &ProseModel, id: &NodeId, out: &mut Vec<ViewBlock>, Ghost(fuel): Ghost<nat>)
    requires
        doc::bounded(model@.nodes.map, id@, fuel),
    ensures
        ops::seen(final(out)@) == ops::seen(old(out)@) + blocks_of(
            model@.nodes.map,
            doc::walk(model@.nodes.map, id@, fuel),
        ),
    decreases fuel,
{
    let ghost m = model@.nodes.map;
    let ghost begin = ops::seen(out@);
    let ghost here = seq![id@];
    proof {
        assert(here.drop_last() =~= Seq::empty());
        reveal_with_fuel(blocks_of, 2);
    }
    if let (Some(text), Some(kind)) = (model.get_text(id), model.node_kind(id)) {
        if !text.is_empty() {
            out.push(ViewBlock { node: id.clone(), kind, text: text.to_string() });
        }
        proof {
            assert(ops::seen(out@) =~= begin + blocks_of(m, here));
        }
    }
    match model.children(id) {
        None => {
            proof {
                assert(ops::seen(out@) =~= begin + blocks_of(m, Seq::empty()));
            }
        },
        Some(children) => {
            let ghost kids = m[id@].children;
            let ghost less = (fuel - 1) as nat;
            proof {
                assert(doc::walk_children(m, kids, 0, less) =~= Seq::empty());
                assert(here + Seq::<Seq<char>>::empty() =~= here);
            }
            let mut i: usize = 0;
            while i < children.len()
                invariant
                    i <= children@.len(),
                    fuel > 0,
                    less == (fuel - 1) as nat,
                    m == model@.nodes.map,
                    m.dom().contains(id@),
                    kids == m[id@].children,
                    kids == ops::seen(children@),
                    here == seq![id@],
                    doc::bounded(m, id@, fuel),
                    ops::seen(out@) == begin + blocks_of(
                        m,
                        here + doc::walk_children(m, kids, i as nat, less),
                    ),
                decreases children@.len() - i,
            {
                proof {
                    assert(kids[i as int] == children@[i as int]@);
                }
                walk_blocks(model, &children[i], out, Ghost(less));
                proof {
                    let a = here + doc::walk_children(m, kids, i as nat, less);
                    let b = doc::walk(m, kids[i as int], less);
                    lemma_blocks_add(m, a, b);
                    assert(a + b =~= here + doc::walk_children(m, kids, (i + 1) as nat, less));
                    assert(begin + (blocks_of(m, a) + blocks_of(m, b)) =~= begin + blocks_of(m, a)
                        + blocks_of(m, b));
                }
                i += 1;
            }
        },
    }
}

/// The nodes of a document that have text, in document order.
pub fn document_blocks(model: &ProseModel) -> (out: Vec<ViewBlock>)
    requires
        doc::walkable(model@.nodes.map, model@.root),
    ensures
        ops::seen(out@) == shown(model@),
{
    let mut out: Vec<ViewBlock> = Vec::new();
    let root = model.root().clone();
    let ghost m = model@.nodes.map;
    let ghost fuel = choose|f: nat| doc::bounded(m, model@.root, f);
    walk_blocks(model, &root, &mut out, Ghost(fuel));
    proof {
        doc::lemma_preorder(m, model@.root, fuel);
        assert(ops::seen(out@) =~= shown(model@));
    }
    out
}

// ---------------------------------------------------------------- texts by node

/// The texts of the first `n` blocks, by node.
pub open spec fn texts_by_node(blocks: Seq<ShownBlock>, n: int) -> Dict<Seq<char>>
    decreases n,
{
    if n <= 0 {
        Dict::empty()
    } else {
        texts_by_node(blocks, n - 1).put(blocks[n - 1].node, blocks[n - 1].text)
    }
}

/// The texts of a list of blocks, by node.
pub open spec fn texts_of(blocks: Seq<ShownBlock>) -> Dict<Seq<char>> {
    texts_by_node(blocks, blocks.len() as int)
}

/// Collects the texts of blocks, by node.
pub fn block_texts(blocks: &Vec<ViewBlock>) -> (r: TextMap<String>)
    ensures
        r@ == texts_of(ops::seen(blocks@)),
{
    let ghost views = ops::seen(blocks@);
    let mut map: TextMap<String> = TextMap::new();
    let mut i: usize = 0;
    while i < blocks.len()
        invariant
            i <= blocks@.len(),
            views == ops::seen(blocks@),
            map@ == texts_by_node(views, i as int),
        decreases blocks@.len() - i,
    {
        proof {
            assert(views[i as int] == blocks@[i as int]@);
        }
        map.insert(blocks[i].node.0.clone(), blocks[i].text.clone());
        i += 1;
    }
    map
}

/// Every key of `a` has the same text in `b`.
fn texts_within(a: &TextMap<String>, b: &TextMap<String>) -> (r: bool)
    ensures
        r == forall|k: Seq<char>| #[trigger]
            a@.map.dom().contains(k) ==> b@.map.dom().contains(k) && b@.map[k] == a@.map[k],
{
    let mut i: usize = 0;
    while i < a.entries.len()
        invariant
            i <= a.entries@.len(),
            forall|j: int|
                0 <= j < i ==> {
                    let k = #[trigger] a@.order[j];
                    b@.map.dom().contains(k) && b@.map[k] == a@.map[k]
                },
        decreases a.entries@.len() - i,
    {
        let key = &a.entries[i].0;
        proof {
            crate::textmap::lemma_dict_tidy(a.entries@);
            assert(a@.order[i as int] == key@);
            assert(a@.order.contains(key@));
        }
        match (a.get(key.as_str()), b.get(key.as_str())) {
            (Some(x), Some(y)) => {
                if !text::same_text(x.as_str(), y.as_str()) {
                    return false;
                }
            },
            _ => {
                return false;
            },
        }
        i += 1;
    }
    proof {
        crate::textmap::lemma_dict_tidy(a.entries@);
        assert forall|k: Seq<char>| #[trigger] a@.map.dom().contains(k) implies b@.map.dom().contains(
            k,
        ) && b@.map[k] == a@.map[k] by {
            assert(a@.order.contains(k));
            let j = choose|j: int| 0 <= j < a@.order.len() && a@.order[j] == k;
            assert(a@.order[j] == k);
        }
    }
    true
}

/// Whether two maps hold the same texts.
pub fn same_texts(a: &TextMap<String>, b: &TextMap<String>) -> (r: bool)
    ensures
        r == (a@.map == b@.map),
{
    let r = texts_within(a, b) && texts_within(b, a);
    proof {
        if r {
            assert(a@.map.dom() =~= b@.map.dom());
            assert(a@.map =~= b@.map);
        }
    }
    r
}

// ---------------------------------------------------------------- facts about walks

/// A walk visits existing nodes only.
pub proof fn lemma_walk_exists(m: Map<Seq<char>, NodeView>, id: Seq<char>, f: nat, k: int)
    requires
        0 <= k < doc::walk(m, id, f).len(),
    ensures
        m.dom().contains(doc::walk(m, id, f)[k]),
    decreases f, 0nat,
{
    if f > 0 && m.dom().contains(id) && k > 0 {
        let kids = m[id].children;
        lemma_walk_children_exists(m, kids, kids.len(), (f - 1) as nat, k - 1);
    }
}

proof fn lemma_walk_children_exists(
    m: Map<Seq<char>, NodeView>,
    kids: Seq<Seq<char>>,
    n: nat,
    f: nat,
    k: int,
)
    requires
        0 <= k < doc::walk_children(m, kids, n, f).len(),
    ensures
        m.dom().contains(doc::walk_children(m, kids, n, f)[k]),
    decreases f, n,
{
    if n > 0 {
        let head = doc::walk_children(m, kids, (n - 1) as nat, f);
        if k < head.len() {
            lemma_walk_children_exists(m, kids, (n - 1) as nat, f, k);
        } else {
            lemma_walk_exists(m, kids[n - 1], f, k - head.len());
        }
    }
}

/// Documents with the same content show the same blocks.
pub proof fn law_same_content_shows_the_same(a: Doc, b: Doc)
    requires
        a.same_content(b),
    ensures
        shown(a) == shown(b),
{
}

proof fn lemma_blocks_distinct(m: Map<Seq<char>, NodeView>, ids: Seq<Seq<char>>)
    requires
        ids.no_duplicates(),
    ensures
        forall|i: int|
            0 <= i < blocks_of(m, ids).len() ==> ids.contains(
                (#[trigger] blocks_of(m, ids)[i]).node,
            ),
        forall|i: int, j: int|
            0 <= i < j < blocks_of(m, ids).len() ==> (#[trigger] blocks_of(m, ids)[i]).node != (
            #[trigger] blocks_of(m, ids)[j]).node,
    decreases ids.len(),
{
    if ids.len() > 0 {
        let rest = ids.drop_last();
        let n = ids.len() - 1;
        lemma_blocks_distinct(m, rest);
        let b = blocks_of(m, ids);
        assert forall|i: int| 0 <= i < b.len() implies ids.contains((#[trigger] b[i]).node) by {
            if i < blocks_of(m, rest).len() {
                let node = blocks_of(m, rest)[i].node;
                assert(rest.contains(node));
                let k = choose|k: int| 0 <= k < rest.len() && rest[k] == node;
                assert(ids[k] == node);
            } else {
                assert(ids[n] == b[i].node);
            }
        }
        assert forall|i: int, j: int| 0 <= i < j < b.len() implies (#[trigger] b[i]).node != (
        #[trigger] b[j]).node by {
            assert(b[i] == blocks_of(m, rest)[i]);
            if j < blocks_of(m, rest).len() {
                assert(b[j] == blocks_of(m, rest)[j]);
            } else {
                assert(rest.contains(b[i].node));
                let k = choose|k: int| 0 <= k < rest.len() && rest[k] == b[i].node;
                assert(ids[k] != ids[n]);
            }
        }
    }
}

/// No node of a document is shown by two blocks.
pub proof fn law_each_node_shows_once(doc: Doc)
    requires
        doc.sound(),
    ensures
        forall|i: int, j: int|
            0 <= i < j < shown(doc).len() ==> (#[trigger] shown(doc)[i]).node != (#[trigger] shown(
                doc,
            )[j]).node,
{
    let m = doc.nodes.map;
    assert(doc::grounded(m, doc.root));
    let f = choose|f: nat| doc::whole(m, doc.root, f);
    tree::lemma_whole_bounded(m, doc.root, f);
    doc::lemma_preorder(m, doc.root, f);
    tree::lemma_walk_distinct(m, doc.root, f);
    lemma_blocks_distinct(m, doc::preorder(m, doc.root));
}

/// A walk through a document comes to every node.
pub proof fn lemma_preorder_is_complete(doc: Doc, k: Seq<char>)
    requires
        doc.sound(),
        doc.nodes.has(k),
    ensures
        doc::preorder(doc.nodes.map, doc.root).contains(k),
{
    let m = doc.nodes.map;
    assert(doc::grounded(m, doc.root));
    let f = choose|f: nat| doc::whole(m, doc.root, f);
    tree::lemma_whole_bounded(m, doc.root, f);
    doc::lemma_preorder(m, doc.root, f);
    assert(tree::reachable(m, doc.root, k));
    let n = choose|n: nat| tree::hangs(m, doc.root, k, n);
    tree::lemma_walk_reaches(m, doc.root, f, k, n);
}

proof fn lemma_blocks_complete(m: Map<Seq<char>, NodeView>, ids: Seq<Seq<char>>, i: int)
    requires
        0 <= i < ids.len(),
        m[ids[i]].text.len() > 0,
    ensures
        blocks_of(m, ids).contains(
            ShownBlock { node: ids[i], kind: m[ids[i]].kind, text: m[ids[i]].text },
        ),
    decreases ids.len(),
{
    let b = ShownBlock { node: ids[i], kind: m[ids[i]].kind, text: m[ids[i]].text };
    let all = blocks_of(m, ids);
    if i < ids.len() - 1 {
        lemma_blocks_complete(m, ids.drop_last(), i);
        let rest = blocks_of(m, ids.drop_last());
        let k = choose|k: int| 0 <= k < rest.len() && rest[k] == b;
        assert(all[k] == b);
    } else {
        assert(all.last() == b);
    }
}

/// Everything is visible: every node of a document that has text is shown, with its text and kind.
pub proof fn law_every_text_is_shown(doc: Doc, k: Seq<char>)
    requires
        doc.sound(),
        doc.nodes.has(k),
        doc.nodes.map[k].text.len() > 0,
    ensures
        shown(doc).contains(
            ShownBlock { node: k, kind: doc.nodes.map[k].kind, text: doc.nodes.map[k].text },
        ),
{
    lemma_preorder_is_complete(doc, k);
    let ids = doc::preorder(doc.nodes.map, doc.root);
    let i = choose|i: int| 0 <= i < ids.len() && ids[i] == k;
    lemma_blocks_complete(doc.nodes.map, ids, i);
}

} // verus!
