//! What is read from Word files and written to them, told by the views, the blocks and the commands.
use crate::docx;
use crate::docx::BlockView;
use crate::json;
use crate::json::JsonTree;
use crate::office;
use crate::office::DocxOpView;
use crate::ops;
use crate::ops::NodeKind;
use crate::saving;
use crate::session;
use crate::session::Session;
use crate::text;
use crate::text_laws;
use vstd::prelude::*;

verus! {

// ---------------------------------------------------------------- commands of a batch

/// The value is the text `s`.
pub open spec fn is_text(v: Option<JsonTree>, s: Seq<char>) -> bool {
    v == Some(JsonTree::Str(s))
}

/// The value under a key of the record under `props`.
pub open spec fn prop(command: JsonTree, key: Seq<char>) -> Option<JsonTree> {
    match command.field("props"@) {
        Some(props) => props.field(key),
        None => None,
    }
}

/// Every op can be read off its command: a changed text is a `set` at its path with what to find and
/// what to put there; a removed paragraph is a `remove` at its path; an added one is an `add` of a
/// `p` to `/body` with its text, and `after` is there exactly if there is an anchor. There is nothing
/// else in a command.
pub proof fn law_commands_read_back(op: DocxOpView)
    ensures
        ({
            let c = office::command_tree(op);
            match op {
                DocxOpView::SetText { path, find, replace } => {
                    &&& is_text(c.field("command"@), "set"@)
                    &&& is_text(c.field("path"@), path)
                    &&& is_text(prop(c, "find"@), find)
                    &&& is_text(prop(c, "replace"@), replace)
                    &&& forall|k: Seq<char>| (#[trigger] c.field(k)) is Some ==> k == "command"@ || k
                        == "path"@ || k == "props"@
                    &&& forall|k: Seq<char>| (#[trigger] prop(c, k)) is Some ==> k == "find"@ || k
                        == "replace"@
                },
                DocxOpView::Remove { path } => {
                    &&& is_text(c.field("command"@), "remove"@)
                    &&& is_text(c.field("path"@), path)
                    &&& forall|k: Seq<char>| (#[trigger] c.field(k)) is Some ==> k == "command"@ || k
                        == "path"@
                },
                DocxOpView::Add { after, text } => {
                    &&& is_text(c.field("command"@), "add"@)
                    &&& is_text(c.field("parent"@), "/body"@)
                    &&& is_text(c.field("type"@), "p"@)
                    &&& is_text(prop(c, "text"@), text)
                    &&& match after {
                        Some(a) => is_text(c.field("after"@), a),
                        None => c.field("after"@) is None,
                    }
                    &&& forall|k: Seq<char>| (#[trigger] c.field(k)) is Some ==> k == "command"@ || k
                        == "parent"@ || k == "type"@ || k == "props"@ || k == "after"@
                    &&& forall|k: Seq<char>| (#[trigger] prop(c, k)) is Some ==> k == "text"@
                },
            }
        }),
{
    lemma_keys_differ();
}

/// The keys of the commands are different texts.
proof fn lemma_keys_differ()
    ensures
        "command"@ != "path"@,
        "command"@ != "props"@,
        "command"@ != "parent"@,
        "command"@ != "type"@,
        "command"@ != "after"@,
        "path"@ != "props"@,
        "parent"@ != "type"@,
        "parent"@ != "props"@,
        "parent"@ != "after"@,
        "type"@ != "props"@,
        "type"@ != "after"@,
        "props"@ != "after"@,
        "find"@ != "replace"@,
{
    reveal_strlit("command");
    reveal_strlit("path");
    reveal_strlit("props");
    reveal_strlit("parent");
    reveal_strlit("type");
    reveal_strlit("after");
    reveal_strlit("find");
    reveal_strlit("replace");
    assert("command"@.len() == 7 && "path"@.len() == 4 && "props"@.len() == 5 && "parent"@.len() == 6
        && "type"@.len() == 4 && "after"@.len() == 5 && "find"@.len() == 4 && "replace"@.len() == 7);
    assert("props"@[0] == 'p' && "after"@[0] == 'a');
}

/// A batch is a list with the command of each op, in order.
pub proof fn law_batch_lists_every_op(ops: Seq<DocxOpView>, i: int)
    requires
        0 <= i < ops.len(),
    ensures
        office::batch_tree(ops) matches JsonTree::Array(list) && list.len() == ops.len() && list[i]
            == office::command_tree(ops[i]),
{
}

// ---------------------------------------------------------------- identities

proof fn lemma_cut_twice(s: Seq<char>, p: Seq<char>, q: Seq<char>)
    requires
        p.len() > 0,
        q.len() > 0,
    ensures
        ({
            let id = text::before(text::before(s, p), q);
            &&& id.len() <= s.len()
            &&& id == s.take(id.len() as int)
            &&& !text_laws::occurs(id, q)
            &&& id.len() < s.len() ==> text::stands_at(s, p, id.len() as int) || text::stands_at(
                s,
                q,
                id.len() as int,
            )
        }),
{
    let t = text::before(s, p);
    let id = text::before(t, q);
    text_laws::law_cutting_at_the_first(s, p);
    text_laws::law_cutting_at_the_first(t, q);
    text_laws::law_cutting_at_the_first(id, q);
    text::law_find_gives_the_first_place(s, p, 0);
    text::law_find_gives_the_first_place(t, q, 0);
    text::law_find_gives_the_first_place(id, q, 0);
    assert(t =~= s.take(t.len() as int));
    assert(id =~= s.take(id.len() as int));
    if text::holds(id, q) {
        let j = text::find(id, q, 0)->Some_0;
        assert(t.subrange(j, j + q.len()) =~= id.subrange(j, j + q.len()));
        assert(text::stands_at(t, q, j));
    }
    if id.len() < t.len() {
        let n = id.len() as int;
        assert(s.subrange(n, n + q.len()) =~= t.subrange(n, n + q.len()));
    } else if id.len() < s.len() {
        assert(text::stands_at(s, p, t.len() as int));
    }
}

/// The identity of a paragraph in a path: there is one exactly if `@paraId=` stands in the path. It
/// begins right behind the first such place, holds no `]`, and goes on to the end of the path or up
/// to a `]` or to another `@paraId=`.
pub proof fn law_identity_in_a_path(path: Seq<char>)
    ensures
        match office::para_id_in(path) {
            None => !text_laws::occurs(path, "@paraId="@),
            Some(id) => exists|at: int| #[trigger]
                text::stands_at(path, "@paraId="@, at) && (forall|j: int|
                    0 <= j < at ==> !#[trigger] text::stands_at(path, "@paraId="@, j)) && {
                    let from = at + 8;
                    let end = from + id.len();
                    &&& end <= path.len()
                    &&& id == path.subrange(from, end)
                    &&& !id.contains(']')
                    &&& end == path.len() || path[end] == ']' || text::stands_at(
                        path,
                        "@paraId="@,
                        end,
                    )
                },
        },
{
    reveal_strlit("@paraId=");
    reveal_strlit("]");
    let p = "@paraId="@;
    let q = "]"@;
    assert(p.len() == 8 && q.len() == 1 && q[0] == ']');
    text_laws::law_cutting_at_the_first(path, p);
    text::law_find_gives_the_first_place(path, p, 0);
    if let Some(id) = office::para_id_in(path) {
        let at = text::find(path, p, 0)->Some_0;
        let rest = path.skip(at + 8);
        lemma_cut_twice(rest, p, q);
        let from = at + 8;
        let end = from + id.len();
        assert(id =~= path.subrange(from, end));
        if id.contains(']') {
            let x = choose|x: int| 0 <= x < id.len() && id[x] == ']';
            assert(id =~= id.take(x) + q + id.skip(x + 1));
            assert(text_laws::occurs(id, q));
        }
        if end < path.len() {
            let n = id.len() as int;
            if text::stands_at(rest, p, n) {
                assert(path.subrange(end, end + 8) =~= rest.subrange(n, n + 8));
                assert(text::stands_at(path, p, end));
            } else {
                assert(rest.subrange(n, n + 1)[0] == q[0]);
                assert(path[end] == rest[n]);
            }
        }
        assert(text::stands_at(path, p, at));
    }
}

/// Cutting a text off: up to `max` characters it stays whole; a longer one keeps its first `max`
/// characters and ends in an ellipsis.
pub proof fn law_cutting_off(s: Seq<char>, max: nat)
    ensures
        s.len() <= max ==> office::truncated(s, max) == s,
        s.len() > max ==> {
            let t = office::truncated(s, max);
            &&& t.len() == max + 1
            &&& t.last() == '…'
            &&& forall|i: int| 0 <= i < max ==> #[trigger] t[i] == s[i]
        },
{
    reveal_strlit("…");
    assert("…"@.len() == 1 && "…"@[0] == '…');
}

// ---------------------------------------------------------------- blocks of the views

/// The text under a key of an element, or the empty text.
pub open spec fn said(el: JsonTree, key: Seq<char>) -> Seq<char> {
    match el.field(key) {
        Some(JsonTree::Str(s)) => s,
        _ => Seq::empty(),
    }
}

/// The element is a paragraph.
pub open spec fn says_paragraph(el: JsonTree) -> bool {
    el.field("type"@) == Some(JsonTree::Str("paragraph"@))
}

/// The number of element `i` among the paragraphs, counted from 1.
pub open spec fn paragraph_number(elements: Seq<JsonTree>, i: int) -> nat {
    elements.take(i + 1).filter(|el: JsonTree| says_paragraph(el)).len()
}

/// The entry gives paragraph number `k` this level.
pub open spec fn entry(h: JsonTree, k: nat, level: u64) -> bool {
    &&& h.field("line"@) matches Some(JsonTree::Uint(line))
    &&& line == k
    &&& h.field("level"@) == Some(JsonTree::Uint(level))
}

proof fn lemma_paragraph_number(elements: Seq<JsonTree>, n: int)
    requires
        0 <= n <= elements.len(),
    ensures
        office::paras_before(elements, n) == elements.take(n).filter(
            |el: JsonTree| says_paragraph(el),
        ).len(),
    decreases n,
{
    reveal(Seq::filter);
    reveal_strlit("paragraph");
    assert("paragraph"@.len() == 9);
    if n > 0 {
        lemma_paragraph_number(elements, n - 1);
        assert(elements.take(n).drop_last() =~= elements.take(n - 1));
        let el = elements[n - 1];
        assert(office::is_para(el) <==> says_paragraph(el));
    }
}

proof fn lemma_level_of(headings: Seq<JsonTree>, k: nat)
    ensures
        match office::level_of(headings, k) {
            Some(level) => exists|j: int, v: u64|
                0 <= j < headings.len() && #[trigger] entry(headings[j], k, v) && level == v as usize
                    && (forall|l: int, w: u64|
                    j < l < headings.len() ==> !#[trigger] entry(headings[l], k, w)),
            None => forall|j: int, v: u64|
                0 <= j < headings.len() ==> !#[trigger] entry(headings[j], k, v),
        },
    decreases headings.len(),
{
    if headings.len() > 0 {
        let n = headings.len() - 1;
        let rest = headings.drop_last();
        lemma_level_of(rest, k);
        let h = headings.last();
        assert(headings[n] == h);
        assert forall|j: int, v: u64| 0 <= j < n implies entry(#[trigger] rest[j], k, v) == #[trigger] entry(
            headings[j],
            k,
            v,
        ) by {}
        if exists|v: u64| #[trigger] entry(h, k, v) {
            let v = choose|v: u64| #[trigger] entry(h, k, v);
            assert(entry(headings[n], k, v));
            assert(h.number("line"@) == Some(k as u64) && h.number("level"@) == Some(v));
            assert(office::level_of(headings, k) == Some(v as usize));
        } else {
            assert(office::level_of(headings, k) == office::level_of(rest, k)) by {
                match (h.number("line"@), h.number("level"@)) {
                    (Some(line), Some(level)) => {
                        if line == k {
                            assert(entry(h, k, level));
                        }
                    },
                    _ => {},
                }
            }
            if let Some(level) = office::level_of(rest, k) {
                let (j, v) = choose|j: int, v: u64|
                    0 <= j < rest.len() && #[trigger] entry(rest[j], k, v) && level == v as usize && (
                    forall|l: int, w: u64|
                        j < l < rest.len() ==> !#[trigger] entry(rest[l], k, w));
                assert(entry(headings[j], k, v));
                assert forall|l: int, w: u64| j < l < headings.len() implies !#[trigger] entry(
                    headings[l],
                    k,
                    w,
                ) by {
                    if l < n {
                        assert(!entry(rest[l], k, w));
                    }
                }
            }
            if office::level_of(rest, k) is None {
                assert forall|j: int, v: u64| 0 <= j < headings.len() implies !#[trigger] entry(
                    headings[j],
                    k,
                    v,
                ) by {
                    if j < n {
                        assert(!entry(rest[j], k, v));
                    }
                }
            }
        }
    }
}

/// The list under `data` and then under a key.
pub open spec fn list_at(view: JsonTree, key: Seq<char>) -> Option<Seq<JsonTree>> {
    match view.field("data"@) {
        Some(d) => match d.field(key) {
            Some(JsonTree::Array(list)) => Some(list),
            _ => None,
        },
        None => None,
    }
}

/// The entries of an outline.
pub open spec fn entries(outline: JsonTree) -> Seq<JsonTree> {
    match list_at(outline, "headings"@) {
        Some(list) => list,
        None => Seq::empty(),
    }
}

/// What the two views of a file come to. Without a list of elements there is an error. Else each
/// element becomes a block with its text. Paragraph number `k` is a heading of the level `v`, whatever
/// `v` is, if `v` is the level in the last entry of the outline for line `k`; it is a plain paragraph
/// if the outline has no entry for that line. Anything but a paragraph stays unstructured, with its
/// type, and with its path inside the body where it has one.
pub proof fn law_views_become_blocks(view: JsonTree, outline: JsonTree, i: int)
    ensures
        match list_at(view, "elements"@) {
            None => office::view_blocks(view, outline) == Err::<Seq<BlockView>, Seq<char>>(
                "text --json 缺少 data.elements 数组"@,
            ),
            Some(elements) => {
                let headings = entries(outline);
                &&& office::view_blocks(view, outline) matches Ok(blocks)
                &&& blocks.len() == elements.len()
                &&& 0 <= i < elements.len() && says_paragraph(elements[i]) ==> {
                    let k = paragraph_number(elements, i);
                    let id = office::para_id_in(said(elements[i], "path"@));
                    &&& forall|j: int, v: u64|
                        0 <= j < headings.len() && #[trigger] entry(headings[j], k, v) && (forall|
                            l: int,
                            w: u64,
                        |
                            j < l < headings.len() ==> !#[trigger] entry(headings[l], k, w))
                            ==> blocks[i] == (BlockView::Heading {
                            level: v as usize,
                            text: said(elements[i], "text"@),
                            para_id: id,
                        })
                    &&& (forall|j: int, v: u64|
                        0 <= j < headings.len() ==> !#[trigger] entry(headings[j], k, v))
                        <==> blocks[i] is Paragraph
                    &&& blocks[i] is Paragraph ==> blocks[i] == (BlockView::Paragraph {
                        text: said(elements[i], "text"@),
                        para_id: id,
                    })
                    &&& blocks[i] is Heading || blocks[i] is Paragraph
                }
                &&& 0 <= i < elements.len() && !says_paragraph(elements[i]) ==> {
                    &&& blocks[i] matches BlockView::Unstructured { kind, raw, para_id, image, anchor }
                    &&& kind == said(elements[i], "type"@)
                    &&& raw == said(elements[i], "text"@)
                    &&& para_id is None
                    &&& image is None
                    &&& match anchor {
                        Some(a) => said(elements[i], "path"@) == "/body/"@ + a,
                        None => forall|a: Seq<char>|
                            said(elements[i], "path"@) != #[trigger] ("/body/"@ + a),
                    }
                }
            },
        },
{
    reveal_strlit("paragraph");
    assert("paragraph"@.len() == 9);
    if let Some(elements) = list_at(view, "elements"@) {
        let headings = entries(outline);
        assert(office::outline_headings(outline) == headings);
        if 0 <= i < elements.len() {
            let el = elements[i];
            lemma_paragraph_number(elements, i + 1);
            let k = paragraph_number(elements, i);
            lemma_level_of(headings, k);
            if says_paragraph(el) {
                assert forall|j: int, v: u64|
                    0 <= j < headings.len() && #[trigger] entry(headings[j], k, v) && (forall|
                        l: int,
                        w: u64,
                    |
                        j < l < headings.len() ==> !#[trigger] entry(
                            headings[l],
                            k,
                            w,
                        )) implies office::level_of(headings, k) == Some(v as usize) by {
                    assert(office::level_of(headings, k) is Some);
                    let level = office::level_of(headings, k)->Some_0;
                    let (x, u) = choose|x: int, u: u64|
                        0 <= x < headings.len() && #[trigger] entry(headings[x], k, u) && level
                            == u as usize && (forall|l: int, w: u64|
                            x < l < headings.len() ==> !#[trigger] entry(headings[l], k, w));
                    if x < j {
                        assert(!entry(headings[j], k, v));
                    } else if j < x {
                        assert(!entry(headings[x], k, u));
                    }
                }
            } else {
                let path = said(el, "path"@);
                text_laws::law_cutting_at_the_first(path, "/body/"@);
                if text::begins(path, "/body/"@) {
                    assert(path =~= "/body/"@ + path.skip("/body/"@.len() as int));
                }
            }
        }
    }
}

// ---------------------------------------------------------------- opening a file

/// What a block becomes when its file is opened: block number `i` is child number `i` of the root, a
/// leaf named `docx:i`. A heading becomes a heading of its level, a paragraph a paragraph, and all
/// else is opaque; the text stays. A block with an identity is remembered by it, and it is an anchor;
/// an element without one is an anchor by its path; a picture stays with its node.
pub proof fn law_what_blocks_become(s: Session, blocks: Seq<BlockView>, path: Seq<char>, i: int)
    requires
        docx::import_fits(session::new_doc(), blocks.len()),
        docx::blocks_countable(blocks),
        0 <= i < blocks.len(),
    ensures
        ({
            let t = s.loaded(blocks, path);
            let id = "docx:"@ + text::decimal(i as nat);
            let node = t.doc.nodes.map[id];
            &&& t.doc.root == "root"@
            &&& t.doc.nodes.map[t.doc.root].children.len() == blocks.len()
            &&& t.doc.nodes.map[t.doc.root].children[i] == id
            &&& t.doc.nodes.map.dom().contains(id)
            &&& node.children.len() == 0
            &&& match blocks[i] {
                BlockView::Heading { level, text, para_id } => {
                    &&& node.kind == (NodeKind::Heading { level })
                    &&& node.text == text
                    &&& remembered(t, id, para_id, None)
                    &&& !t.image_map.has(id)
                },
                BlockView::Paragraph { text, para_id } => {
                    &&& node.kind == NodeKind::Paragraph
                    &&& node.text == text
                    &&& remembered(t, id, para_id, None)
                    &&& !t.image_map.has(id)
                },
                BlockView::Unstructured { kind, raw, para_id, image, anchor } => {
                    &&& node.kind == NodeKind::Opaque
                    &&& node.text == raw
                    &&& remembered(t, id, para_id, anchor)
                    &&& match image {
                        Some(b) => t.image_map.has(id) && t.image_map.map[id] == b,
                        None => !t.image_map.has(id),
                    }
                },
            }
        }),
{
    saving::law_loading_a_file(s, blocks, path, docx::docx_id(i as nat));
    let ids = docx::docx_ids(0, blocks.len());
    assert(ids[i] == docx::docx_id((0 + i) as nat));
    assert(ids.contains(docx::docx_id(i as nat)));
    session::law_opened_document_holds_the_blocks(blocks);
    assert(docx::docx_id(i as nat) == "docx:"@ + text::decimal(i as nat));
}

/// The node is known by this identity, or by none, and something can be inserted after it by the
/// identity, or by the path `anchor` where there is no identity.
pub open spec fn remembered(
    t: Session,
    id: Seq<char>,
    para_id: Option<Seq<char>>,
    anchor: Option<Seq<char>>,
) -> bool {
    match para_id {
        Some(x) => {
            &&& t.para_map.has(id)
            &&& t.para_map.map[id] == x
            &&& t.body_anchor.has(id)
            &&& t.body_anchor.map[id] == "p[@paraId="@ + x + "]"@
        },
        None => {
            &&& !t.para_map.has(id)
            &&& match anchor {
                Some(a) => t.body_anchor.has(id) && t.body_anchor.map[id] == a,
                None => !t.body_anchor.has(id),
            }
        },
    }
}

// ---------------------------------------------------------------- pictures

/// Note number `i` is the first one of this paragraph.
pub open spec fn first_of(notes: Seq<(Seq<char>, Seq<char>)>, id: Seq<char>, i: int) -> bool {
    &&& 0 <= i < notes.len()
    &&& notes[i].0 == id
    &&& forall|j: int| 0 <= j < i ==> (#[trigger] notes[j]).0 != id
}

pub proof fn lemma_paired(
    notes: Seq<(Seq<char>, Seq<char>)>,
    bytes: Seq<Seq<u8>>,
    n: int,
    id: Seq<char>,
)
    requires
        0 <= n <= notes.len(),
        n <= bytes.len(),
    ensures
        forall|i: int|
            (#[trigger] first_of(notes, id, i) && i < n) ==> (office::paired(notes, bytes, n).has(id)
                && office::paired(notes, bytes, n).map[id] == bytes[i]),
        (forall|i: int| 0 <= i < n ==> (#[trigger] notes[i]).0 != id) ==> !office::paired(
            notes,
            bytes,
            n,
        ).has(id),
        office::paired(notes, bytes, n).has(id) ==> exists|i: int|
            0 <= i < n && (#[trigger] notes[i]).0 == id,
    decreases n,
{
    if n > 0 {
        lemma_paired(notes, bytes, n - 1, id);
        let rest = office::paired(notes, bytes, n - 1);
        let all = office::paired(notes, bytes, n);
        if rest.has(id) {
            let i = choose|i: int| 0 <= i < n - 1 && (#[trigger] notes[i]).0 == id;
            assert(notes[i].0 == id);
        }
        assert forall|i: int| #[trigger] first_of(notes, id, i) && i < n implies all.has(id)
            && all.map[id] == bytes[i] by {
            if i < n - 1 {
                assert(rest.has(id) && rest.map[id] == bytes[i]);
            } else {
                assert(!rest.has(id));
            }
        }
    }
}

/// The pictures of a file reach their blocks. Notes and pictures go together in order. An empty
/// paragraph with a note becomes a visible image with its first note, keeps its identity, and has its
/// picture where there is one; an unstructured block with an identity and without a picture gets the
/// picture of its first note; every other block stays as it is.
pub proof fn law_pictures_reach_their_blocks(
    blocks: Seq<BlockView>,
    notes: Seq<(Seq<char>, Seq<char>)>,
    pictures: Seq<Seq<u8>>,
    x: int,
    i: int,
)
    requires
        0 <= x < blocks.len(),
    ensures
        ({
            let all = office::illustrated(blocks, notes, pictures);
            &&& all.len() == blocks.len()
            &&& match blocks[x] {
                BlockView::Paragraph { text, para_id: Some(id) } => {
                    &&& text.len() == 0 && first_of(notes, id, i) ==> all[x]
                        == (BlockView::Unstructured {
                        kind: "image"@,
                        raw: notes[i].1,
                        para_id: Some(id),
                        image: if i < pictures.len() {
                            Some(pictures[i])
                        } else {
                            None
                        },
                        anchor: None,
                    })
                    &&& text.len() > 0 ==> all[x] == blocks[x]
                    &&& (forall|j: int| 0 <= j < notes.len() ==> (#[trigger] notes[j]).0 != id)
                        ==> all[x] == blocks[x]
                },
                BlockView::Unstructured { kind, raw, para_id: Some(id), image: None, anchor } => {
                    &&& first_of(notes, id, i) && i < pictures.len() ==> all[x]
                        == (BlockView::Unstructured {
                        kind,
                        raw,
                        para_id: Some(id),
                        image: Some(pictures[i]),
                        anchor,
                    })
                    &&& first_of(notes, id, i) && i >= pictures.len() ==> all[x] == blocks[x]
                    &&& (forall|j: int| 0 <= j < notes.len() ==> (#[trigger] notes[j]).0 != id)
                        ==> all[x] == blocks[x]
                },
                _ => all[x] == blocks[x],
            }
        }),
{
    let n = office::shorter(notes.len(), pictures.len());
    let all = office::illustrated(blocks, notes, pictures);
    match blocks[x] {
        BlockView::Paragraph { text, para_id: Some(id) } => {
            lemma_paired(notes, pictures, n, id);
            lemma_label(notes, id, i);
        },
        BlockView::Unstructured { kind, raw, para_id: Some(id), image: None, anchor } => {
            lemma_paired(notes, pictures, n, id);
            lemma_label(notes, id, i);
        },
        _ => {},
    }
}

proof fn lemma_label(notes: Seq<(Seq<char>, Seq<char>)>, id: Seq<char>, i: int)
    ensures
        first_of(notes, id, i) ==> office::label_of(notes, id) == Some(notes[i].1),
        (forall|j: int| 0 <= j < notes.len() ==> (#[trigger] notes[j]).0 != id) ==> office::label_of(
            notes,
            id,
        ) is None,
        forall|j: int|
            first_of(notes, id, i) && 0 <= j < notes.len() && (#[trigger] notes[j]).0 == id ==> i <= j,
{
    if first_of(notes, id, i) {
        assert(office::first_note(notes, id, i));
        let c = choose|c: int| office::first_note(notes, id, c);
        if c < i {
            assert(notes[c].0 != id);
        } else if i < c {
            assert(notes[i].0 != id);
        }
    }
}

/// The pictures that can be decoded, in order; one that cannot is left out.
pub proof fn law_undecodable_pictures_are_left_out(
    items: Seq<Option<Seq<u8>>>,
    item: Option<Seq<u8>>,
)
    ensures
        office::present(Seq::empty()).len() == 0,
        office::present(items.push(item)) == match item {
            Some(b) => office::present(items).push(b),
            None => office::present(items),
        },
{
    assert(items.push(item).drop_last() =~= items);
}

// ---------------------------------------------------------------- notes of pictures

/// Reading an annotated view, one line more. A note that is still open takes in the line up to its
/// first `]`, which closes it. Else a line that begins with `[` and names a paragraph makes that the
/// current one, and `[Image:` begins a note of the current paragraph, which ends at the next `]` or
/// stays open. Notes are cut off at 80 characters.
pub proof fn law_reading_notes(lines: Seq<Seq<char>>, line: Seq<char>)
    ensures
        ({
            let n = lines.len() as int;
            let was = office::scanned(lines, n);
            let now = office::scanned(lines.push(line), n + 1);
            let closes = text_laws::occurs(line, "]"@);
            let upto = text::before(line, "]"@);
            let para = if text::begins(line, "["@) && text_laws::occurs(line, "@paraId="@) {
                office::para_id_in(line)
            } else {
                was.current
            };
            match was.open {
                Some((id, label)) => {
                    let note = if label.len() > 0 && upto.len() > 0 {
                        label + seq![' '] + text::trimmed(upto)
                    } else {
                        label + text::trimmed(upto)
                    };
                    &&& now.current == was.current
                    &&& closes ==> now.open is None && now.images == was.images.push(
                        (id, office::truncated(note, 80)),
                    )
                    &&& !closes ==> now.images == was.images && now.open == Some((id, note))
                },
                None => {
                    &&& now.current == para
                    &&& !text_laws::occurs(line, "[Image:"@) || para is None ==> now.images
                        == was.images && now.open is None
                    &&& forall|a: Seq<char>, rest: Seq<char>|
                        line == #[trigger] (a + "[Image:"@ + rest) && text::before(line, "[Image:"@) == a
                            && para is Some ==> if text_laws::occurs(rest, "]"@) {
                            now.open is None && now.images == was.images.push(
                                (
                                    para->Some_0,
                                    office::truncated(text::trimmed(text::before(rest, "]"@)), 80),
                                ),
                            )
                        } else {
                            now.images == was.images && now.open == Some(
                                (para->Some_0, text::trimmed(rest)),
                            )
                        }
                },
            }
        }),
        office::scanned(lines, 0).images.len() == 0,
        office::scanned(lines, 0).open is None,
        office::scanned(lines, 0).current is None,
{
    let n = lines.len() as int;
    lemma_scanned_prefix(lines, line, n);
    let was = office::scanned(lines, n);
    text_laws::law_cutting_at_the_first(line, "]"@);
    text_laws::law_cutting_at_the_first(line, "[Image:"@);
    law_identity_in_a_path(line);
    text_laws::law_cutting_at_the_first(line, "@paraId="@);
    if let Some((id, label)) = was.open {
        let upto = text::before(line, "]"@);
        assert(label.push(' ') + text::trimmed(upto) =~= label + seq![' '] + text::trimmed(upto));
    } else {
        if let Some(rest) = text::after(line, "[Image:"@) {
            text_laws::law_cutting_at_the_first(rest, "]"@);
            assert forall|a: Seq<char>, r: Seq<char>|
                line == #[trigger] (a + "[Image:"@ + r) && text::before(line, "[Image:"@)
                    == a implies r == rest by {
                assert(r =~= line.skip((a.len() + "[Image:"@.len()) as int));
                assert(rest =~= line.skip((a.len() + "[Image:"@.len()) as int));
            }
        } else {
            assert forall|a: Seq<char>, r: Seq<char>|
                line == #[trigger] (a + "[Image:"@ + r) implies text_laws::occurs(
                line,
                "[Image:"@,
            ) by {}
        }
    }
}

proof fn lemma_scanned_prefix(lines: Seq<Seq<char>>, line: Seq<char>, n: int)
    requires
        n <= lines.len(),
    ensures
        office::scanned(lines.push(line), n) == office::scanned(lines, n),
    decreases n,
{
    if n > 0 {
        lemma_scanned_prefix(lines, line, n - 1);
    }
}

// ---------------------------------------------------------------- pictures of an HTML view

proof fn lemma_find_shift(s: Seq<char>, pat: Seq<char>, k: int, from: int)
    requires
        0 <= k <= from,
        k <= s.len(),
    ensures
        text::find(s, pat, from) == match text::find(s.skip(k), pat, from - k) {
            Some(i) => Some(i + k),
            None => None,
        },
    decreases s.len() + 1 - from,
{
    if from + pat.len() <= s.len() {
        assert(s.skip(k).subrange(from - k, from - k + pat.len()) =~= s.subrange(
            from,
            from + pat.len(),
        ));
        if !text::stands_at(s, pat, from) {
            lemma_find_shift(s, pat, k, from + 1);
        }
    }
}

proof fn lemma_end_shift(s: Seq<char>, k: int, from: int)
    requires
        0 <= k <= from <= s.len(),
    ensures
        office::payload_end(s, from) == office::payload_end(s.skip(k), from - k) + k,
    decreases s.len() - from,
{
    if from < s.len() {
        assert(s.skip(k)[from - k] == s[from]);
        lemma_end_shift(s, k, from + 1);
    }
}

proof fn lemma_payloads_shift(s: Seq<char>, k: int, pos: int)
    requires
        0 <= k <= pos,
        k <= s.len(),
    ensures
        office::payloads_from(s, pos) == office::payloads_from(s.skip(k), pos - k),
    decreases s.len() - pos,
{
    reveal_strlit("data:image/");
    reveal_strlit(";base64,");
    lemma_find_shift(s, "data:image/"@, k, pos);
    text::law_find_gives_the_first_place(s, "data:image/"@, pos);
    if let Some(i) = text::find(s, "data:image/"@, pos) {
        lemma_find_shift(s, ";base64,"@, k, i);
        text::law_find_gives_the_first_place(s, ";base64,"@, i);
        if let Some(m) = text::find(s, ";base64,"@, i) {
            let start = m + ";base64,"@.len();
            lemma_end_shift(s, k, start);
            let end = office::payload_end(s, start);
            if pos < end <= s.len() {
                lemma_payload_end(s, start);
                assert(s.skip(k).subrange(start - k, end - k) =~= s.subrange(start, end));
                lemma_payloads_shift(s, k, end);
            }
        }
    }
}

proof fn lemma_payload_end(s: Seq<char>, from: int)
    requires
        0 <= from <= s.len(),
    ensures
        from <= office::payload_end(s, from) <= s.len(),
        forall|i: int|
            from <= i < office::payload_end(s, from) ==> #[trigger] s[i] != '"' && s[i] != '\''
                && s[i] != ')',
        office::payload_end(s, from) < s.len() ==> ({
            let c = s[office::payload_end(s, from)];
            c == '"' || c == '\'' || c == ')'
        }),
    decreases s.len() - from,
{
    if from < s.len() {
        lemma_payload_end(s, from + 1);
    }
}

/// The pictures in an HTML text, one after the other. Without `data:image/`, or without `;base64,`
/// behind it, there is none. Else the payload of the first one begins behind the first `;base64,`
/// after the first `data:image/`, and ends at the first quotation mark or closing bracket, or with
/// the text; white space in it does not count; and the pictures of the rest follow.
pub proof fn law_pictures_in_html(html: Seq<char>, head: Seq<char>, kind: Seq<char>, payload: Seq<char>, rest: Seq<char>)
    ensures
        !text_laws::occurs(html, "data:image/"@) ==> office::payloads_from(html, 0).len() == 0,
        ({
            let s = head + "data:image/"@ + kind + ";base64,"@ + payload + rest;
            &&& text::before(s, "data:image/"@) == head && text::before(
                "data:image/"@ + kind + ";base64,"@ + payload + rest,
                ";base64,"@,
            ) == "data:image/"@ + kind && (forall|i: int|
                0 <= i < payload.len() ==> #[trigger] payload[i] != '"' && payload[i] != '\''
                    && payload[i] != ')') && (rest.len() == 0 || rest[0] == '"' || rest[0] == '\''
                || rest[0] == ')') ==> office::payloads_from(s, 0) == seq![
                payload.filter(|c: char| !text::is_white(c)),
            ] + office::payloads_from(rest, 0)
        }),
{
    reveal_strlit("data:image/");
    reveal_strlit(";base64,");
    let p = "data:image/"@;
    let q = ";base64,"@;
    assert(p.len() == 11 && q.len() == 8);
    text_laws::law_cutting_at_the_first(html, p);
    let s = head + p + kind + q + payload + rest;
    let t = p + kind + q + payload + rest;
    if text::before(s, p) == head && text::before(t, q) == p + kind && (forall|i: int|
        0 <= i < payload.len() ==> #[trigger] payload[i] != '"' && payload[i] != '\'' && payload[i]
            != ')') && (rest.len() == 0 || rest[0] == '"' || rest[0] == '\'' || rest[0] == ')') {
        let i = head.len() as int;
        let m = i + (p + kind).len();
        let start = m + 8;
        let end = start + payload.len();
        assert(s.subrange(i, i + 11) =~= p);
        assert(text::stands_at(s, p, i));
        text::law_find_gives_the_first_place(s, p, 0);
        assert(text::find(s, p, 0) == Some(i));
        assert(s.skip(i) =~= t);
        assert(t.subrange(m - i, m - i + 8) =~= q);
        assert(text::stands_at(t, q, m - i));
        text::law_find_gives_the_first_place(t, q, 0);
        lemma_find_shift(s, q, i, i);
        assert(text::find(s, q, i) == Some(m));
        lemma_payload_end(s, start);
        let e = office::payload_end(s, start);
        assert forall|j: int| start <= j < end implies #[trigger] s[j] == payload[j - start] by {}
        if e < end {
            assert(s[e] == payload[e - start]);
        }
        if end < s.len() {
            assert(s[end] == rest[0]);
        }
        assert(e == end);
        assert(s.subrange(start, end) =~= payload);
        lemma_payloads_shift(s, end, end);
        assert(s.skip(end) =~= rest);
    }
}

// ---------------------------------------------------------------- what runs of the tool say

/// What a run that shows a view says: a run that failed is an error with what it told; else the JSON
/// that it printed is the view, and anything else is an error.
pub proof fn law_view_runs(mode: Seq<char>, stdout: Seq<u8>, stderr: Seq<char>)
    ensures
        office::view_result(mode, false, stdout, stderr) == Err::<JsonTree, Seq<char>>(
            "officecli view "@ + mode + " 退出码非零: "@ + text::trimmed(stderr),
        ),
        json::json_value_of(stdout) matches Ok(t) ==> office::view_result(mode, true, stdout, stderr)
            == Ok::<JsonTree, Seq<char>>(t),
        json::json_value_of(stdout) matches Err(e) ==> office::view_result(
            mode,
            true,
            stdout,
            stderr,
        ) == Err::<JsonTree, Seq<char>>("officecli "@ + mode + " --json 解析失败: "@ + e),
{
}

/// What a run of a batch says: a run that failed is an error with what it told. A run that ended well
/// wrote everything, unless the first line about `Batch complete` tells of failures: then that line is
/// the error.
pub proof fn law_batch_runs(stdout: Seq<char>, stderr: Seq<char>, i: int)
    ensures
        office::batch_outcome(false, stdout, stderr) == Err::<(), Seq<char>>(
            "officecli batch 退出码非零: "@ + text::trimmed(stderr),
        ),
        ({
            let lines = text::lines_of(stdout);
            &&& (forall|j: int|
                0 <= j < lines.len() ==> !text_laws::occurs(#[trigger] lines[j], "Batch complete"@))
                ==> office::batch_outcome(true, stdout, stderr) == Ok::<(), Seq<char>>(())
            &&& 0 <= i < lines.len() && text_laws::occurs(lines[i], "Batch complete"@) && (forall|
                j: int,
            |
                0 <= j < i ==> !text_laws::occurs(#[trigger] lines[j], "Batch complete"@))
                ==> office::batch_outcome(true, stdout, stderr) == if office::none_failed(lines[i]) {
                Ok::<(), Seq<char>>(())
            } else {
                Err("部分改动未写回: "@ + text::trimmed(lines[i]))
            }
        }),
{
    let lines = text::lines_of(stdout);
    let pat = "Batch complete"@;
    assert forall|j: int| 0 <= j < lines.len() implies text::holds(#[trigger] lines[j], pat)
        == text_laws::occurs(lines[j], pat) by {
        text_laws::law_cutting_at_the_first(lines[j], pat);
    }
    if 0 <= i < lines.len() && text_laws::occurs(lines[i], pat) && (forall|j: int|
        0 <= j < i ==> !text_laws::occurs(#[trigger] lines[j], pat)) {
        assert(office::first_line_with(lines, pat, i));
        let c = choose|c: int| office::first_line_with(lines, pat, c);
        assert(office::first_line_with(lines, pat, c));
        if c < i {
            assert(text::holds(lines[c], pat));
        } else if i < c {
            assert(!text::holds(lines[i], pat));
        }
    }
}

/// Where the parts of the views stand: the annotated text under `data` and `content`, the HTML text
/// under `data`.
pub proof fn law_parts_of_the_views(annotated: JsonTree, html: JsonTree, s: Seq<char>)
    ensures
        annotated.field("data"@) matches Some(d) && d.field("content"@) == Some(JsonTree::Str(s))
            ==> office::noted(annotated) == office::image_paras(s),
        html.field("data"@) == Some(JsonTree::Str(s)) ==> office::html_pictures(Some(html))
            == office::present(office::decoded(office::payloads_from(s, 0))),
        office::html_pictures(None).len() == 0,
        !(html.field("data"@) matches Some(JsonTree::Str(_))) ==> office::html_pictures(
            Some(html),
        ).len() == 0,
{
}

/// A picture that is begun but says nothing of its encoding is none, and none follows.
pub proof fn law_pictures_without_encoding(head: Seq<char>, rest: Seq<char>)
    requires
        text::before(head + "data:image/"@ + rest, "data:image/"@) == head,
        !text_laws::occurs("data:image/"@ + rest, ";base64,"@),
    ensures
        office::payloads_from(head + "data:image/"@ + rest, 0).len() == 0,
{
    reveal_strlit("data:image/");
    reveal_strlit(";base64,");
    let p = "data:image/"@;
    let q = ";base64,"@;
    let s = head + p + rest;
    let i = head.len() as int;
    assert(p.len() == 11 && q.len() == 8);
    assert(s.subrange(i, i + 11) =~= p);
    assert(text::stands_at(s, p, i));
    text::law_find_gives_the_first_place(s, p, 0);
    assert(text::find(s, p, 0) == Some(i));
    text::law_find_gives_the_first_place(s, q, i);
    if let Some(m) = text::find(s, q, i) {
        let t = p + rest;
        let a = t.take(m - i);
        let b = t.skip(m - i + 8);
        assert(s.subrange(m, m + 8) =~= q);
        assert(t =~= a + q + b);
    }
}

/// The notes of an annotated text are those that its lines hold; one that is never closed is none.
pub proof fn law_notes_of_a_text(annotated: &str, r: Vec<(String, String)>)
    requires
        call_ensures(office::parse_image_paras, (annotated,), r),
    ensures
        ({
            let lines = text::lines_of(annotated@);
            ops::seen(r@) == office::scanned(lines, lines.len() as int).images
        }),
{
}

/// The pictures of an HTML view are those of its text, as far as they can be decoded.
pub proof fn law_pictures_of_a_page(html: &str, payloads: Vec<String>, r: Vec<Vec<u8>>)
    requires
        call_ensures(office::html_payloads, (html,), payloads),
        call_ensures(office::parse_html_images, (html,), r),
    ensures
        ops::seen(payloads@) == office::payloads_from(html@, 0),
        ops::seen(r@) == office::present(office::decoded(ops::seen(payloads@))),
{
}

/// Which lines tell that nothing failed: those that hold `0 failed` where it is not the end of a larger
/// number, whatever stands around it; a line without it tells of a failure.
pub proof fn law_lines_that_tell_of_no_failure(head: Seq<char>, rest: Seq<char>, line: Seq<char>)
    ensures
        head.len() == 0 || !('0' <= head.last() <= '9') ==> office::none_failed(
            head + "0 failed"@ + rest,
        ),
        !text_laws::occurs(line, "0 failed"@) ==> !office::none_failed(line),
        (forall|i: int| #[trigger]
            text::stands_at(line, "0 failed"@, i) ==> i > 0 && '0' <= line[i - 1] <= '9')
            ==> !office::none_failed(line),
{
    let p = "0 failed"@;
    let s = head + p + rest;
    let at = head.len() as int;
    assert(s.subrange(at, at + p.len()) =~= p);
    assert(text::stands_at(s, p, at));
    if office::none_failed(line) {
        let i = choose|i: int| #[trigger]
            text::stands_at(line, p, i) && !(i > 0 && '0' <= line[i - 1] <= '9');
        let a = line.take(i);
        let b = line.skip(i + p.len());
        assert(line.subrange(i, i + p.len()) =~= p);
        assert(line =~= a + p + b);
    }
}

} // verus!
