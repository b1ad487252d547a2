//! What the calls give that read replies and views, write commands, and look after the history of a
//! file.
use crate::ai;
use crate::ai::AiChange;
use crate::commit::{CommitError, PatchError};
use crate::describe;
use crate::diff;
use crate::diff::{DiffPart, PartView};
use crate::docx;
use crate::docx::{BlockView, DocxBlock, OfficeCliBackend};
use crate::history;
use crate::history::{Step, Version};
use crate::json;
use crate::json::JsonTree;
use crate::office;
use crate::office::{DocxOp, ToolOutput};
use crate::ops;
use crate::ops::NodeId;
use crate::outline;
use crate::outline::{ShownBlock, ViewBlock};
use crate::patchset::TopoError;
use crate::reply_laws;
use crate::text;
use crate::text_laws;
use crate::textmap::TextMap;
use crate::word_laws;
use serde_json::Value;
use vstd::prelude::*;

verus! {

// ---------------------------------------------------------------- replies

/// A reply without fences and quotation marks is taken whole, all its lines, but for white space
/// around it.
pub proof fn law_reading_a_plain_reply(reply: &str, out: String)
    requires
        call_ensures(ai::parse_ai_reply, (reply,), out),
        !text::begins(text::trimmed(reply@), "```"@),
        !reply_laws::is_quoted(text::trimmed(reply@)),
    ensures
        text_laws::is_trimmed(reply@, out@),
{
    reply_laws::law_plain_reply_is_taken_whole(reply@);
}

/// The request to rewrite a text ends in the text.
pub proof fn law_asking_about_a_text(said: &str, out: String)
    requires
        call_ensures(ai::ai_rewrite_prompt, (said,), out),
    ensures
        out@.len() == ai::REWRITE_TASK@.len() + said@.len(),
        out@.skip(ai::REWRITE_TASK@.len() as int) == said@,
        out@.take(ai::REWRITE_TASK@.len() as int) == ai::REWRITE_TASK@,
{
    let n = ai::REWRITE_TASK@.len() as int;
    assert(out@.skip(n) =~= said@);
    assert(out@.take(n) =~= ai::REWRITE_TASK@);
}

/// The request to clean a document ends in its segments, one in a line.
pub proof fn law_asking_about_segments(segments: &[(NodeId, String)], out: String)
    requires
        call_ensures(ai::ai_clean_prompt, (segments,), out),
    ensures
        out@.take(ai::CLEAN_TASK@.len() as int) == ai::CLEAN_TASK@,
        out@.skip(ai::CLEAN_TASK@.len() as int) == ai::segment_lines(
            ops::seen(segments@),
            segments@.len() as int,
        ),
{
    let n = ai::CLEAN_TASK@.len() as int;
    assert(out@.skip(n) =~= ai::segment_lines(ops::seen(segments@), segments@.len() as int));
    assert(out@.take(n) =~= ai::CLEAN_TASK@);
}

/// Every item of a reply is an edit or is counted as dropped. An edit is for a node of the request,
/// starts from the text that was sent, changes it, and is ticked.
pub proof fn law_reading_items(
    items: &Vec<Value>,
    olds: &[(NodeId, String)],
    r: (Vec<AiChange>, usize),
    j: int,
)
    requires
        call_ensures(ai::clean_changes, (items, olds), r),
    ensures
        r.0@.len() + r.1 == items@.len(),
        ops::seen(r.0@) == ai::item_changes(
            json::trees(items@),
            ops::seen(olds@),
            items@.len() as int,
        ),
        0 <= j < r.0@.len() ==> {
            let c = r.0@[j]@;
            &&& c.selected
            &&& c.new != c.old
            &&& exists|k: int|
                0 <= k < olds@.len() && (#[trigger] olds@[k]).0@ == c.node && olds@[k].1@ == c.old
        },
{
    let changes = ops::seen(r.0@);
    let sent = ops::seen(olds@);
    lemma_items(json::trees(items@), sent, items@.len() as int);
    if 0 <= j < r.0@.len() {
        assert(changes[j] == r.0@[j]@);
        let k = choose|k: int|
            0 <= k < sent.len() && (#[trigger] sent[k]) == (changes[j].node, changes[j].old);
        assert(sent[k] == olds@[k]@);
        assert(olds@[k].0@ == changes[j].node);
    }
}

proof fn lemma_items(items: Seq<JsonTree>, olds: Seq<(Seq<char>, Seq<char>)>, n: int)
    requires
        0 <= n <= items.len(),
    ensures
        forall|j: int|
            0 <= j < ai::item_changes(items, olds, n).len() ==> {
                let c = #[trigger] ai::item_changes(items, olds, n)[j];
                &&& c.selected
                &&& c.new != c.old
                &&& exists|k: int| 0 <= k < olds.len() && (#[trigger] olds[k]) == (c.node, c.old)
            },
    decreases n,
{
    if n > 0 {
        lemma_items(items, olds, n - 1);
        let was = ai::item_changes(items, olds, n - 1);
        let now = ai::item_changes(items, olds, n);
        assert forall|j: int| 0 <= j < now.len() implies {
            let c = #[trigger] now[j];
            &&& c.selected
            &&& c.new != c.old
            &&& exists|k: int| 0 <= k < olds.len() && (#[trigger] olds[k]) == (c.node, c.old)
        } by {
            if j < was.len() {
                assert(now[j] == was[j]);
            } else {
                lemma_sent(olds, now[j].node);
            }
        }
    }
}

proof fn lemma_sent(olds: Seq<(Seq<char>, Seq<char>)>, id: Seq<char>)
    ensures
        ai::old_of(olds, id) matches Some(t) ==> exists|k: int|
            0 <= k < olds.len() && (#[trigger] olds[k]) == (id, t),
    decreases olds.len(),
{
    if olds.len() > 0 {
        lemma_sent(olds.drop_last(), id);
        if let Some(t) = ai::old_of(olds, id) {
            if olds.last().0 == id {
                assert(olds[olds.len() - 1] == (id, t));
            } else {
                let rest = olds.drop_last();
                let k = choose|k: int| 0 <= k < rest.len() && (#[trigger] rest[k]) == (id, t);
                assert(olds[k] == (id, t));
            }
        }
    }
}

/// A reply to a request to clean is read if what it says is a JSON array, and else that is the error.
pub proof fn law_reading_a_clean_reply(
    raw: &str,
    olds: &[(NodeId, String)],
    r: Result<(Vec<AiChange>, usize), String>,
)
    requires
        call_ensures(ai::parse_clean_reply, (raw, olds), r),
    ensures
        match json::json_list_of(ai::reply_text(raw@)) {
            Ok(items) => r matches Ok((changes, dropped)) && changes@.len() + dropped == items.len()
                && ops::seen(changes@) == ai::item_changes(
                items,
                ops::seen(olds@),
                items.len() as int,
            ),
            Err(e) => r matches Err(said) && said@ == "模型回复不是合法 JSON 数组: "@ + e,
        },
{
    reply_laws::law_clean_replies(raw@, ops::seen(olds@));
}

/// What a program printed is its answer if it ended well.
pub proof fn law_reading_the_answer_of_a_program(
    program: &str,
    success: bool,
    stdout: String,
    stderr: &str,
    r: Result<String, String>,
)
    requires
        call_ensures(ai::tool_reply, (program, success, stdout, stderr), r),
    ensures
        r is Ok <==> success,
        r matches Ok(s) ==> s@ == stdout@,
        r matches Err(e) ==> e@ == program@ + " 调用失败: "@ + text::trimmed(stdout@) + seq![' ']
            + text::trimmed(stderr@),
{
    reply_laws::law_answers_of_programs(program@, stdout@, stderr@);
}

// ---------------------------------------------------------------- differences

/// The parts of a difference, without what was inserted, are the old text; without what was deleted,
/// they are the new one; and two neighbours are never of one sort.
pub proof fn law_showing_a_difference(was: &str, now: &str, r: Vec<DiffPart>, i: int)
    requires
        call_ensures(diff::char_diff, (was, now), r),
    ensures
        diff::old_side(ops::seen(r@)) == was@,
        diff::new_side(ops::seen(r@)) == now@,
        0 <= i < r@.len() - 1 ==> match (r@[i], r@[i + 1]) {
            (DiffPart::Equal(a), DiffPart::Equal(b)) => false,
            (DiffPart::Delete(a), DiffPart::Delete(b)) => false,
            (DiffPart::Insert(a), DiffPart::Insert(b)) => false,
            (DiffPart::Insert(a), DiffPart::Delete(b)) => false,
            _ => true,
        },
{
    let parts = ops::seen(r@);
    diff::law_diff_rebuilds_both_texts(was@, now@);
    diff::law_diff_merges_runs(was@, now@);
    diff::law_diff_deletes_before_it_inserts(was@, now@);
    if 0 <= i < r@.len() - 1 {
        assert(parts[i] == r@[i]@ && parts[i + 1] == r@[i + 1]@);
    }
}

/// What the two sides of a difference are: a part that is the same is on both, a deleted one on the old
/// side only, and an inserted one on the new side only.
pub proof fn law_sides_of_a_difference(parts: Seq<PartView>, p: DiffPart)
    ensures
        diff::old_side(Seq::empty()).len() == 0,
        diff::new_side(Seq::empty()).len() == 0,
        match p {
            DiffPart::Equal(run) => diff::old_side(parts.push(p@)) == diff::old_side(parts) + run@
                && diff::new_side(parts.push(p@)) == diff::new_side(parts) + run@,
            DiffPart::Delete(run) => diff::old_side(parts.push(p@)) == diff::old_side(parts) + run@
                && diff::new_side(parts.push(p@)) == diff::new_side(parts),
            DiffPart::Insert(run) => diff::old_side(parts.push(p@)) == diff::old_side(parts)
                && diff::new_side(parts.push(p@)) == diff::new_side(parts) + run@,
        },
{
    assert(parts.push(p@).drop_last() =~= parts);
}

// ---------------------------------------------------------------- Word files

/// The commands of a batch, read back as JSON, are as many as the ops, and stand in their order.
pub proof fn law_writing_a_batch(list: &[DocxOp], out: String, i: int)
    requires
        call_ensures(office::build_batch, (list,), out),
        0 <= i < list@.len(),
    ensures
        ({
            let read = json::json_value_of(vstd::utf8::encode_utf8(out@));
            &&& read matches Ok(JsonTree::Array(commands))
            &&& commands.len() == list@.len()
            &&& match list@[i] {
                DocxOp::SetText { path, find, replace } => {
                    &&& commands[i].field("command"@) == Some(JsonTree::Str("set"@))
                    &&& commands[i].field("path"@) == Some(JsonTree::Str(path@))
                    &&& commands[i].field("props"@) matches Some(props)
                    &&& props.field("find"@) == Some(JsonTree::Str(find@))
                    &&& props.field("replace"@) == Some(JsonTree::Str(replace@))
                },
                DocxOp::Remove { path } => {
                    &&& commands[i].field("command"@) == Some(JsonTree::Str("remove"@))
                    &&& commands[i].field("path"@) == Some(JsonTree::Str(path@))
                },
                DocxOp::Add { after, text } => {
                    &&& commands[i].field("command"@) == Some(JsonTree::Str("add"@))
                    &&& commands[i].field("parent"@) == Some(JsonTree::Str("/body"@))
                    &&& commands[i].field("type"@) == Some(JsonTree::Str("p"@))
                    &&& commands[i].field("after"@) == match after {
                        Some(path) => Some(JsonTree::Str(path@)),
                        None => None,
                    }
                    &&& commands[i].field("props"@) matches Some(props)
                    &&& props.field("text"@) == Some(JsonTree::Str(text@))
                },
            }
        }),
{
    let seen = ops::seen(list@);
    assert(seen[i] == list@[i]@);
    word_laws::law_batch_lists_every_op(seen, i);
    word_laws::law_commands_read_back(seen[i]);
}

/// Every element of a text view becomes a block, with its text; an unstructured block is what is no
/// paragraph.
pub proof fn law_reading_views(
    view: &Value,
    headings: &Value,
    r: Result<Vec<DocxBlock>, String>,
)
    requires
        call_ensures(office::parse_blocks, (view, headings), r),
    ensures
        match word_laws::list_at(json::json_tree(*view), "elements"@) {
            Some(elements) => r matches Ok(blocks) && blocks@.len() == elements.len()
                && office::view_blocks(json::json_tree(*view), json::json_tree(*headings)) == Ok::<
                Seq<BlockView>,
                Seq<char>,
            >(ops::seen(blocks@)),
            None => r matches Err(e) && e@ == "text --json 缺少 data.elements 数组"@,
        },
{
    word_laws::law_views_become_blocks(json::json_tree(*view), json::json_tree(*headings), 0);
}

/// Headings of a view: a paragraph becomes a heading of the level that the last entry of the outline
/// for its line gives, whatever that level is.
pub proof fn law_reading_headings(
    view: &Value,
    headings: &Value,
    r: Result<Vec<DocxBlock>, String>,
    i: int,
    j: int,
    level: u64,
)
    requires
        call_ensures(office::parse_blocks, (view, headings), r),
        word_laws::list_at(json::json_tree(*view), "elements"@) is Some,
        ({
            let elements = word_laws::list_at(json::json_tree(*view), "elements"@)->Some_0;
            let entries = word_laws::entries(json::json_tree(*headings));
            let k = word_laws::paragraph_number(elements, i);
            &&& 0 <= i < elements.len()
            &&& word_laws::says_paragraph(elements[i])
            &&& 0 <= j < entries.len()
            &&& word_laws::entry(entries[j], k, level)
            &&& forall|l: int, w: u64|
                j < l < entries.len() ==> !#[trigger] word_laws::entry(entries[l], k, w)
        }),
    ensures
        r matches Ok(blocks) && i < blocks@.len() && (blocks@[i] matches DocxBlock::Heading {
            level: n,
            text,
            para_id,
        } && n == level as usize && text@ == word_laws::said(
            word_laws::list_at(json::json_tree(*view), "elements"@)->Some_0[i],
            "text"@,
        )),
{
    word_laws::law_views_become_blocks(json::json_tree(*view), json::json_tree(*headings), i);
    if let Ok(blocks) = r {
        assert(ops::seen(blocks@).len() == blocks@.len());
        assert(ops::seen(blocks@)[i] == blocks@[i]@);
    }
}

/// All views together: the blocks of the text view, with the pictures of the others.
pub proof fn law_reading_all_views(
    view: &Value,
    headings: &Value,
    annotated: &Value,
    html: Option<&Value>,
    r: Result<Vec<DocxBlock>, String>,
    plain: Result<Vec<DocxBlock>, String>,
)
    requires
        call_ensures(office::assemble_views, (view, headings, annotated, html), r),
        call_ensures(office::parse_blocks, (view, headings), plain),
    ensures
        match (plain, r) {
            (Ok(blocks), Ok(all)) => {
                &&& all@.len() == blocks@.len()
                &&& ops::seen(all@) == office::illustrated(
                    ops::seen(blocks@),
                    office::noted(json::json_tree(*annotated)),
                    office::html_pictures(
                        match html {
                            Some(h) => Some(json::json_tree(*h)),
                            None => None,
                        },
                    ),
                )
            },
            (Err(a), Err(b)) => a@ == b@,
            _ => false,
        },
{
    if let (Ok(blocks), Ok(all)) = (plain, r) {
        let notes = office::noted(json::json_tree(*annotated));
        let pictures = office::html_pictures(
            match html {
                Some(h) => Some(json::json_tree(*h)),
                None => None,
            },
        );
        assert(ops::seen(all@).len() == all@.len());
        assert(ops::seen(blocks@).len() == blocks@.len());
        assert(office::illustrated(ops::seen(blocks@), notes, pictures).len() == blocks@.len());
    }
}

/// The identity of a block, and the path behind which something can be added: a block with an identity
/// is found by it; without one only an unstructured block has a path, its own.
pub proof fn law_finding_a_block(b: &DocxBlock, id: Option<&str>, path: Option<String>)
    requires
        call_ensures(DocxBlock::para_id, (b,), id),
        call_ensures(DocxBlock::body_anchor, (b,), path),
    ensures
        match *b {
            DocxBlock::Heading { level, text, para_id } => {
                &&& id is Some <==> para_id is Some
                &&& para_id matches Some(p) ==> id->Some_0@ == p@
                &&& para_id is None ==> path is None
            },
            DocxBlock::Paragraph { text, para_id } => {
                &&& id is Some <==> para_id is Some
                &&& para_id matches Some(p) ==> id->Some_0@ == p@
                &&& para_id is None ==> path is None
            },
            DocxBlock::Unstructured { kind, raw, para_id, image, anchor } => {
                &&& id is Some <==> para_id is Some
                &&& para_id matches Some(p) ==> id->Some_0@ == p@
                &&& para_id is None ==> (path is Some <==> anchor is Some)
                &&& para_id is None && anchor is Some ==> path->Some_0@ == anchor->Some_0@
            },
        },
        id matches Some(p) ==> (path matches Some(t) && t@ == "p[@paraId="@ + p@ + "]"@),
{
}

/// What is said when a program cannot be started, and when what it printed is no JSON.
pub proof fn law_reporting_failures(a: &str, why: &str, launch: String, parse: String)
    requires
        call_ensures(office::launch_failure, (a, why), launch),
        call_ensures(office::parse_failure, (a, why), parse),
    ensures
        launch@ == "启动 "@ + a@ + " 失败（officecli 装了吗？在 PATH 上吗？）: "@ + why@,
        parse@ == "officecli "@ + a@ + " --json 解析失败: "@ + why@,
{
}

/// Pictures go to notes in order, as far as there are both; the first note of a paragraph counts.
pub proof fn law_pairing_pictures(
    notes: &[(String, String)],
    bytes: Vec<Vec<u8>>,
    r: TextMap<Vec<u8>>,
    i: int,
)
    requires
        call_ensures(office::pair_images, (notes, bytes), r),
        0 <= i < notes@.len(),
        forall|j: int| 0 <= j < i ==> (#[trigger] notes@[j]).0@ != notes@[i].0@,
    ensures
        r@.has(notes@[i].0@) <==> i < bytes@.len(),
        i < bytes@.len() ==> r@.map[notes@[i].0@] == bytes@[i]@,
{
    let seen = ops::seen(notes@);
    let pictures = ops::seen(bytes@);
    assert(seen[i] == notes@[i]@);
    assert forall|j: int| 0 <= j < i implies (#[trigger] seen[j]).0 != seen[i].0 by {
        assert(seen[j] == notes@[j]@);
        assert(notes@[j].0@ != notes@[i].0@);
    }
    let n = office::shorter(seen.len(), pictures.len());
    word_laws::lemma_paired(seen, pictures, n, seen[i].0);
    assert(word_laws::first_of(seen, seen[i].0, i));
    if i < bytes@.len() {
        assert(pictures[i] == bytes@[i]@);
    }
}

/// A text that is cut off keeps its beginning; one that is short enough is the same.
pub proof fn law_shortening(s: &str, max: usize, out: String)
    requires
        call_ensures(office::truncate_chars, (s, max), out),
    ensures
        s@.len() <= max ==> out@ == s@,
        s@.len() > max ==> out@ == s@.take(max as int).push('…'),
{
    word_laws::law_cutting_off(s@, max as nat);
    if s@.len() > max {
        assert(out@ =~= s@.take(max as int).push('…'));
    }
}

/// What a run of the program says: a view is read from a run that ended well, and a batch is written by
/// one that ended well and tells of no failure.
pub proof fn law_reading_runs(
    mode: &str,
    run: &ToolOutput,
    view: Result<Value, String>,
    success: bool,
    stdout: &str,
    stderr: &str,
    written: Result<(), String>,
)
    requires
        call_ensures(office::read_view, (mode, run), view),
        call_ensures(office::batch_result, (success, stdout, stderr), written),
    ensures
        view is Ok ==> run.success,
        view matches Ok(v) ==> json::json_value_of(run.stdout@) == Ok::<_, Seq<char>>(
            json::json_tree(v),
        ),
        run.success && json::json_value_of(run.stdout@) is Ok ==> view is Ok,
        written is Ok ==> success,
        match written {
            Ok(u) => office::batch_outcome(success, stdout@, stderr@) is Ok,
            Err(e) => office::batch_outcome(success, stdout@, stderr@) == Err::<(), _>(e@),
        },
{
    word_laws::law_view_runs(mode@, run.stdout@, run.stderr@);
}

/// The name of a file and its extension.
pub proof fn law_naming_a_file(path: &str, name: Option<String>, ext: String, id: Option<String>)
    requires
        call_ensures(history::name_of, (path,), name),
        call_ensures(history::extension_of, (path,), ext),
        call_ensures(office::parse_para_id, (path,), id),
    ensures
        docx::opt_text(name) == history::file_name(path@),
        ext@ == history::path_ext(path@),
        docx::opt_text(id) == office::para_id_in(path@),
{
}

/// The texts of blocks, by node: where a node has several, the last one counts.
pub proof fn law_collecting_texts(blocks: &Vec<ViewBlock>, r: TextMap<String>, i: int)
    requires
        call_ensures(outline::block_texts, (blocks,), r),
        0 <= i < blocks@.len(),
        forall|j: int| i < j < blocks@.len() ==> (#[trigger] blocks@[j]).node@ != blocks@[i].node@,
    ensures
        r@.has(blocks@[i].node@),
        r@.map[blocks@[i].node@] == blocks@[i].text@,
{
    let seen = ops::seen(blocks@);
    assert(seen[i] == blocks@[i]@);
    assert forall|j: int| i < j < seen.len() implies (#[trigger] seen[j]).node != seen[i].node by {
        assert(seen[j] == blocks@[j]@);
        assert(blocks@[j].node@ != blocks@[i].node@);
    }
    lemma_last_text(seen, i, seen.len() as int);
}

proof fn lemma_last_text(blocks: Seq<ShownBlock>, i: int, n: int)
    requires
        0 <= i < n <= blocks.len(),
        forall|j: int| i < j < n ==> (#[trigger] blocks[j]).node != blocks[i].node,
    ensures
        outline::texts_by_node(blocks, n).has(blocks[i].node),
        outline::texts_by_node(blocks, n).map[blocks[i].node] == blocks[i].text,
    decreases n,
{
    if i < n - 1 {
        assert(blocks[n - 1].node != blocks[i].node);
        lemma_last_text(blocks, i, n - 1);
    }
}

/// Placing the pictures step by step: placeholders for paragraphs with nothing but a picture, then the
/// pictures themselves, gives the blocks with all pictures in place.
pub proof fn law_placing_pictures(
    blocks: Vec<DocxBlock>,
    notes: &[(String, String)],
    bytes: Vec<Vec<u8>>,
    placed: Vec<DocxBlock>,
    images: &TextMap<Vec<u8>>,
    out: Vec<DocxBlock>,
)
    requires
        call_ensures(office::apply_image_paras, (blocks, notes), placed),
        call_ensures(office::pair_images, (notes, bytes), *images),
        call_ensures(office::attach_images, (placed, images), out),
    ensures
        placed@.len() == blocks@.len(),
        out@.len() == blocks@.len(),
        ops::seen(out@) == office::illustrated(
            ops::seen(blocks@),
            ops::seen(notes@),
            ops::seen(bytes@),
        ),
{
    assert(ops::seen(out@).len() == out@.len());
    assert(ops::seen(placed@).len() == placed@.len());
    assert(ops::seen(blocks@).len() == blocks@.len());
    assert(ops::seen(notes@).len() == notes@.len());
    assert(ops::seen(bytes@).len() == bytes@.len());
}

/// Of a list with gaps, what is there stays in order.
pub proof fn law_leaving_gaps_out(items: Vec<Option<Vec<u8>>>, out: Vec<Vec<u8>>)
    requires
        call_ensures(office::keep_present, (items,), out),
        forall|i: int| 0 <= i < items@.len() ==> (#[trigger] items@[i]) is Some,
    ensures
        out@.len() == items@.len(),
        forall|i: int| 0 <= i < out@.len() ==> (#[trigger] out@[i])@ == items@[i]->Some_0@,
{
    let views = items@.map_values(|b: Option<Vec<u8>>| docx::opt_bytes(b));
    assert forall|i: int| 0 <= i < views.len() implies (#[trigger] views[i]) is Some by {
        assert(items@[i] is Some);
    }
    lemma_none_left_out(views);
    assert(ops::seen(out@).len() == out@.len());
    assert forall|i: int| 0 <= i < out@.len() implies (#[trigger] out@[i])@
        == items@[i]->Some_0@ by {
        assert(ops::seen(out@)[i] == out@[i]@);
        assert(views[i] == docx::opt_bytes(items@[i]));
        assert(items@[i] is Some);
    }
}

proof fn lemma_none_left_out(items: Seq<Option<Seq<u8>>>)
    requires
        forall|i: int| 0 <= i < items.len() ==> (#[trigger] items[i]) is Some,
    ensures
        office::present(items).len() == items.len(),
        forall|i: int|
            0 <= i < items.len() ==> #[trigger] office::present(items)[i] == items[i]->Some_0,
    decreases items.len(),
{
    if items.len() > 0 {
        let rest = items.drop_last();
        assert forall|i: int| 0 <= i < rest.len() implies (#[trigger] rest[i]) is Some by {
            assert(rest[i] == items[i]);
        }
        lemma_none_left_out(rest);
        assert(items[items.len() - 1] is Some);
    }
}

/// The program that reads and writes Word files is the one that was named, or `officecli`.
pub proof fn law_naming_the_program(
    name: String,
    named: OfficeCliBackend,
    usual: OfficeCliBackend,
)
    requires
        call_ensures(OfficeCliBackend::with_program, (name,), named),
        call_ensures(OfficeCliBackend::new, (), usual),
    ensures
        named.program@ == name@,
        usual.program@ == "officecli"@,
{
}

/// Two contents are the same if all their bytes are.
pub proof fn law_same_contents(a: &Vec<u8>, b: &Vec<u8>, r: bool)
    requires
        call_ensures(history::same_bytes, (a, b), r),
    ensures
        r <==> a@.len() == b@.len() && forall|i: int| 0 <= i < a@.len() ==> #[trigger] a@[i] == b@[i],
{
    if a@.len() == b@.len() && forall|i: int| 0 <= i < a@.len() ==> #[trigger] a@[i] == b@[i] {
        assert(a@ =~= b@);
    }
}

// ---------------------------------------------------------------- history

/// The first moment that is free: no earlier one, from the given one on, has a name that is free.
pub proof fn law_finding_a_free_moment(
    millis: u64,
    ext: &str,
    taken: &Vec<String>,
    r: Option<u64>,
    k: int,
)
    requires
        call_ensures(history::free_moment, (millis, ext, taken), r),
        millis <= k <= u64::MAX,
        forall|i: int|
            0 <= i < taken@.len() ==> (#[trigger] taken@[i])@ != history::version_name(
                k as nat,
                ext@,
            ),
    ensures
        r matches Some(m) && millis <= m <= k,
{
    let names = ops::seen(taken@);
    let name = history::version_name(k as nat, ext@);
    if names.contains(name) {
        let i = choose|i: int| 0 <= i < names.len() && names[i] == name;
        assert(names[i] == taken@[i]@);
    }
    let args = (millis, ext, taken);
    assert(history::version_name(k as nat, args.1@) == name);
    assert(!history::in_use(names, name));
}

/// A new version comes after all others: its moment is not before now, later than that of every
/// version, and its name is free; and it is the first such moment.
pub proof fn law_moment_of_a_new_version(
    now: u64,
    ext: &str,
    taken: &Vec<String>,
    versions: &Vec<Version>,
    r: Option<u64>,
    k: int,
    i: int,
)
    requires
        call_ensures(history::new_moment, (now, ext, taken, versions), r),
    ensures
        r matches Some(m) ==> {
            &&& now <= m
            &&& 0 <= i < versions@.len() ==> versions@[i].millis < m
            &&& 0 <= i < taken@.len() ==> taken@[i]@ != history::version_name(m as nat, ext@)
        },
        now <= k <= u64::MAX && (forall|j: int|
            0 <= j < versions@.len() ==> (#[trigger] versions@[j]).millis < k) && (forall|j: int|
            0 <= j < taken@.len() ==> (#[trigger] taken@[j])@ != history::version_name(
                k as nat,
                ext@,
            )) ==> (r matches Some(m) && m <= k),
{
    let names = ops::seen(taken@);
    let list = ops::seen(versions@);
    assert(names.len() == taken@.len() && list.len() == versions@.len());
    if let Some(m) = r {
        if 0 <= i < versions@.len() {
            assert(list[i] == versions@[i]@);
        }
        if 0 <= i < taken@.len() {
            assert(names[i] == taken@[i]@);
        }
    }
    if now <= k <= u64::MAX && (forall|j: int|
        0 <= j < versions@.len() ==> (#[trigger] versions@[j]).millis < k) && (forall|j: int|
        0 <= j < taken@.len() ==> (#[trigger] taken@[j])@ != history::version_name(k as nat, ext@)) {
        let name = history::version_name(k as nat, ext@);
        if names.contains(name) {
            let j = choose|j: int| 0 <= j < names.len() && names[j] == name;
            assert(names[j] == taken@[j]@);
        }
        assert(history::is_later(list, k)) by {
            assert forall|j: int| 0 <= j < list.len() implies (#[trigger] list[j]).millis < k by {
                assert(list[j] == versions@[j]@);
                assert(versions@[j].millis < k);
            }
        }
        let args = (now, ext, taken, versions);
        assert(history::version_name(k as nat, args.1@) == name);
        assert(!history::in_use(names, name));
    }
}

/// The versions among some files are the files whose names read as moments.
pub proof fn law_listing_versions(
    paths: &Vec<String>,
    list: Vec<Version>,
    path: &str,
    one: Option<Version>,
    i: int,
)
    requires
        call_ensures(history::versions_among, (paths,), list),
        call_ensures(history::read_version, (path,), one),
        0 <= i < paths@.len(),
        paths@[i]@ == path@,
    ensures
        one matches Some(v) ==> v.path@ == path@ && exists|j: int|
            0 <= j < list@.len() && (#[trigger] list@[j])@ == v@,
        one is None ==> forall|j: int|
            0 <= j < list@.len() ==> (#[trigger] list@[j]).path@ != path@,
        forall|j: int, k: int|
            0 <= j < k < list@.len() ==> (#[trigger] list@[j]).millis >= (#[trigger] list@[k]).millis,
{
    let files = ops::seen(paths@);
    let n = paths@.len() as int;
    let all = history::listed(files, n);
    assert(ops::seen(list@).len() == list@.len());
    assert(files[i] == paths@[i]@);
    assert forall|j: int| 0 <= j < list@.len() implies all[j] == (#[trigger] list@[j])@ by {
        assert(ops::seen(list@)[j] == list@[j]@);
    }
    history::law_versions_are_newest_first(files, n);
    assert forall|j: int, k: int| 0 <= j < k < list@.len() implies (#[trigger] list@[j]).millis
        >= (#[trigger] list@[k]).millis by {
        assert(all[j] == list@[j]@ && all[k] == list@[k]@);
    }
    if let Some(v) = one {
        history::law_listing_is_complete(files, n, v@);
        assert(all.contains(v@));
        let j = choose|j: int| 0 <= j < all.len() && all[j] == v@;
        assert(list@[j]@ == v@);
    } else {
        assert forall|j: int| 0 <= j < list@.len() implies (#[trigger] list@[j]).path@ != path@ by {
            assert(all[j] == list@[j]@);
            history::law_listing_is_complete(files, n, all[j]);
            assert(all.contains(all[j]));
        }
    }
}

/// One file more in a listing: if it is a version, it comes in behind all versions that are as new or
/// newer and before all older ones, and the others stay in their order; if not, the listing is the
/// same.
pub proof fn law_listing_one_file_more(paths: Seq<Seq<char>>, path: Seq<char>)
    ensures
        ({
            let was = history::listed(paths, paths.len() as int);
            let now = history::listed(paths.push(path), (paths.len() + 1) as int);
            match history::version_at(path) {
                None => now == was,
                Some(v) => exists|k: int|
                    0 <= k <= was.len() && now == #[trigger] was.insert(k, v) && (forall|i: int|
                        0 <= i < k ==> (#[trigger] was[i]).millis >= v.millis) && (forall|i: int|
                        k <= i < was.len() ==> (#[trigger] was[i]).millis < v.millis),
            }
        }),
        history::listed(paths, 0).len() == 0,
{
    let n = paths.len() as int;
    let was = history::listed(paths, n);
    lemma_listed_prefix(paths, path, n);
    history::law_versions_are_newest_first(paths, n);
    assert(paths.push(path)[n] == path);
    if let Some(v) = history::version_at(path) {
        let k = history::slot(was, v.millis, was.len() as int);
        history::lemma_slot(was, v.millis, was.len() as int);
        assert(history::listed(paths.push(path), n + 1) == was.insert(k, v));
    }
}

proof fn lemma_listed_prefix(paths: Seq<Seq<char>>, path: Seq<char>, n: int)
    requires
        0 <= n <= paths.len(),
    ensures
        history::listed(paths.push(path), n) == history::listed(paths, n),
    decreases n,
{
    if n > 0 {
        lemma_listed_prefix(paths, path, n - 1);
        assert(paths.push(path)[n - 1] == paths[n - 1]);
    }
}

/// A content counts as kept if some version that could be read has the very same bytes.
pub proof fn law_whether_a_content_is_kept(current: &Vec<u8>, kept: &Vec<Option<Vec<u8>>>, r: bool, i: int)
    requires
        call_ensures(history::already_kept, (current, kept), r),
        0 <= i < kept@.len(),
    ensures
        kept@[i] is Some && kept@[i]->Some_0@ == current@ ==> r,
        r ==> exists|j: int|
            0 <= j < kept@.len() && (#[trigger] kept@[j]) is Some && kept@[j]->Some_0@ == current@,
{
    if kept@[i] is Some && kept@[i]->Some_0@ == current@ {
        assert(docx::opt_bytes(kept@[i]) == Some(current@));
    }
    if r {
        let j = choose|j: int|
            0 <= j < kept@.len() && docx::opt_bytes(#[trigger] kept@[j]) == Some(current@);
        assert(kept@[j] is Some);
    }
}

/// A content that is kept is not stored again, and then nothing is pruned either. A new one is stored
/// first and pruning comes last; going back to a version copies it once, in between.
pub proof fn law_steps(version: &str, there: bool, kept: bool, keep: Vec<Step>, back: Result<Vec<Step>, String>)
    requires
        call_ensures(history::keep_steps, (kept,), keep),
        call_ensures(history::restore_steps, (version, there, kept), back),
    ensures
        keep@.contains(Step::Keep) <==> !kept,
        keep@.contains(Step::Prune) <==> !kept,
        !keep@.contains(Step::Copy),
        !kept ==> keep@.first() == Step::Keep && keep@.last() == Step::Prune,
        back is Ok <==> there,
        back matches Err(e) ==> e@ == "版本不存在: "@ + version@,
        back matches Ok(steps) ==> {
            &&& steps@.contains(Step::Copy)
            &&& kept ==> steps@.len() == 1
            &&& !kept ==> steps@.len() == 3 && steps@.first() == Step::Keep && steps@[1]
                == Step::Copy && steps@.last() == Step::Prune
        },
{
    if !kept {
        assert(keep@[0] == Step::Keep && keep@[1] == Step::Prune);
    }
    if let Ok(steps) = back {
        if kept {
            assert(steps@[0] == Step::Copy);
        } else {
            assert(steps@[1] == Step::Copy);
        }
    }
}

/// Where the history of a file is, what its versions are named, and which are there to prune.
pub proof fn law_calls_on_a_history(
    dir: &str,
    name: &str,
    millis: u64,
    joined: String,
    home: String,
    label: String,
    list: &Vec<Version>,
    keep: usize,
    gone: Vec<Version>,
    i: int,
)
    requires
        call_ensures(history::join_path, (dir, name), joined),
        call_ensures(history::history_dir, (name,), home),
        call_ensures(history::name_version, (millis, name), label),
        call_ensures(history::versions_to_prune, (list, keep), gone),
    ensures
        joined@ == if dir@.len() == 0 || dir@.last() == '/' {
            dir@ + name@
        } else {
            dir@ + seq!['/'] + name@
        },
        home@ == history::history_path(name@),
        label@ == history::version_name(millis as nat, name@),
        gone@.len() == if keep == 0 || list@.len() <= keep {
            0
        } else {
            list@.len() - keep
        },
        0 <= i < gone@.len() ==> gone@[i]@ == list@[keep + i]@,
{
    reveal_strlit("/");
    assert("/"@ =~= seq!['/']);
    let seen = ops::seen(gone@);
    assert(seen.len() == gone@.len());
    assert(ops::seen(list@).len() == list@.len());
    if 0 <= i < gone@.len() {
        assert(seen[i] == gone@[i]@);
        assert(ops::seen(list@)[keep + i] == list@[keep + i]@);
    }
}

// ---------------------------------------------------------------- errors in words

/// An error of an op is told by its name and what it is about.
pub proof fn law_patch_errors_in_words(e: &PatchError, out: String)
    requires
        call_ensures(PatchError::shown, (e,), out),
    ensures
        match *e {
            PatchError::UnknownTarget(id) => out@ == "UnknownTarget(NodeId("@ + text::quoted(id@)
                + "))"@,
            PatchError::DuplicateNode(id) => out@ == "DuplicateNode(NodeId("@ + text::quoted(id@)
                + "))"@,
            PatchError::NotRemovable(id) => out@ == "NotRemovable(NodeId("@ + text::quoted(id@)
                + "))"@,
            PatchError::RangeOutOfBounds(range) => out@
                == "RangeOutOfBounds(CharRange { start: Pos("@ + text::decimal(
                range.start.0 as nat,
            ) + "), end: Pos("@ + text::decimal(range.end.0 as nat) + ") })"@,
            PatchError::IndexOutOfBounds { parent, index, len } => out@
                == "IndexOutOfBounds { parent: NodeId("@ + text::quoted(parent@) + "), index: "@
                + text::decimal(index as nat) + ", len: "@ + text::decimal(len as nat) + " }"@,
        },
{
    lemma_words();
    match *e {
        PatchError::UnknownTarget(id) => {
            lemma_wrapped("UnknownTarget("@, "NodeId("@, text::quoted(id@), ")"@, ")"@);
        },
        PatchError::DuplicateNode(id) => {
            lemma_wrapped("DuplicateNode("@, "NodeId("@, text::quoted(id@), ")"@, ")"@);
        },
        PatchError::NotRemovable(id) => {
            lemma_wrapped("NotRemovable("@, "NodeId("@, text::quoted(id@), ")"@, ")"@);
        },
        PatchError::RangeOutOfBounds(range) => {
            let a = text::decimal(range.start.0 as nat);
            let b = text::decimal(range.end.0 as nat);
            let (x, y, m, z, w) = (
                "RangeOutOfBounds("@,
                "CharRange { start: Pos("@,
                "), end: Pos("@,
                ") }"@,
                ")"@,
            );
            assert(x + (y + a + m + b + z) + w =~= x + y + a + m + b + (z + w));
        },
        PatchError::IndexOutOfBounds { parent, index, len } => {
            let q = text::quoted(parent@);
            let (x, y, z, w) = ("IndexOutOfBounds { parent: "@, "NodeId("@, ")"@, ", index: "@);
            assert(x + (y + q + z) + w =~= (x + y) + q + (z + w));
        },
    }
}

/// An error of an order is told by its name and what it is about.
pub proof fn law_topo_errors_in_words(e: &TopoError, out: String)
    requires
        call_ensures(TopoError::shown, (e,), out),
    ensures
        match *e {
            TopoError::DuplicateId(id) => out@ == "DuplicateId(PatchId("@ + text::quoted(id@)
                + "))"@,
            TopoError::DanglingDependency { patch, missing } => out@
                == "DanglingDependency { patch: PatchId("@ + text::quoted(patch@)
                + "), missing: PatchId("@ + text::quoted(missing@) + ") }"@,
            TopoError::Cycle(ids) => out@ == "Cycle("@ + describe::ids_shown(ops::seen(ids@))
                + ")"@,
        },
{
    lemma_words();
    match *e {
        TopoError::DuplicateId(id) => {
            lemma_wrapped("DuplicateId("@, "PatchId("@, text::quoted(id@), ")"@, ")"@);
        },
        TopoError::DanglingDependency { patch, missing } => {
            let a = text::quoted(patch@);
            let b = text::quoted(missing@);
            let (x, y, z, m, w) = (
                "DanglingDependency { patch: "@,
                "PatchId("@,
                ")"@,
                ", missing: "@,
                " }"@,
            );
            assert(x + (y + a + z) + m + (y + b + z) + w =~= (x + y) + a + (z + m + y) + b + (z
                + w));
        },
        TopoError::Cycle(ids) => {},
    }
}

/// An error of a commit is told by its name, with the patch that it is about or the error behind it.
pub proof fn law_commit_errors_in_words(
    e: &CommitError,
    out: String,
    order: &TopoError,
    of_order: String,
    op: &PatchError,
    of_op: String,
)
    requires
        call_ensures(CommitError::shown, (e,), out),
        call_ensures(TopoError::shown, (order,), of_order),
        call_ensures(PatchError::shown, (op,), of_op),
    ensures
        match *e {
            CommitError::UnreviewedAi(id) => out@ == "UnreviewedAi(PatchId("@ + text::quoted(id@)
                + "))"@,
            CommitError::Topo(t) => t@ == order@ ==> out@ == "Topo("@ + of_order@ + ")"@,
            CommitError::Aborted { patch, cause } => cause@ == op@ ==> out@
                == "Aborted { patch: PatchId("@ + text::quoted(patch@) + "), cause: "@ + of_op@
                + " }"@,
        },
{
    lemma_words();
    match *e {
        CommitError::UnreviewedAi(id) => {
            lemma_wrapped("UnreviewedAi("@, "PatchId("@, text::quoted(id@), ")"@, ")"@);
        },
        CommitError::Topo(t) => {},
        CommitError::Aborted { patch, cause } => {
            let q = text::quoted(patch@);
            let (x, y, z, w) = ("Aborted { patch: "@, "PatchId("@, ")"@, ", cause: "@);
            assert(x + (y + q + z) + w =~= (x + y) + q + (z + w));
        },
    }
}

proof fn lemma_wrapped(a: Seq<char>, b: Seq<char>, s: Seq<char>, y: Seq<char>, z: Seq<char>)
    ensures
        a + (b + s + y) + z == (a + b) + s + (y + z),
{
    assert(a + (b + s + y) + z =~= (a + b) + s + (y + z));
}

proof fn lemma_words()
    ensures
        "UnknownTarget(NodeId("@ == "UnknownTarget("@ + "NodeId("@,
        "DuplicateNode(NodeId("@ == "DuplicateNode("@ + "NodeId("@,
        "NotRemovable(NodeId("@ == "NotRemovable("@ + "NodeId("@,
        "))"@ == ")"@ + ")"@,
        "RangeOutOfBounds(CharRange { start: Pos("@ == "RangeOutOfBounds("@
            + "CharRange { start: Pos("@,
        ") })"@ == ") }"@ + ")"@,
        "IndexOutOfBounds { parent: NodeId("@ == "IndexOutOfBounds { parent: "@ + "NodeId("@,
        "), index: "@ == ")"@ + ", index: "@,
        "DuplicateId(PatchId("@ == "DuplicateId("@ + "PatchId("@,
        "DanglingDependency { patch: PatchId("@ == "DanglingDependency { patch: "@ + "PatchId("@,
        "), missing: PatchId("@ == ")"@ + ", missing: "@ + "PatchId("@,
        ") }"@ == ")"@ + " }"@,
        "UnreviewedAi(PatchId("@ == "UnreviewedAi("@ + "PatchId("@,
        "Aborted { patch: PatchId("@ == "Aborted { patch: "@ + "PatchId("@,
        "), cause: "@ == ")"@ + ", cause: "@,
{
    reveal_strlit("UnknownTarget(NodeId(");
    reveal_strlit("UnknownTarget(");
    reveal_strlit("NodeId(");
    reveal_strlit("DuplicateNode(NodeId(");
    reveal_strlit("DuplicateNode(");
    reveal_strlit("NotRemovable(NodeId(");
    reveal_strlit("NotRemovable(");
    reveal_strlit("))");
    reveal_strlit(")");
    reveal_strlit("RangeOutOfBounds(CharRange { start: Pos(");
    reveal_strlit("RangeOutOfBounds(");
    reveal_strlit("CharRange { start: Pos(");
    reveal_strlit(") })");
    reveal_strlit(") }");
    reveal_strlit("IndexOutOfBounds { parent: NodeId(");
    reveal_strlit("IndexOutOfBounds { parent: ");
    reveal_strlit("), index: ");
    reveal_strlit(", index: ");
    reveal_strlit("DuplicateId(PatchId(");
    reveal_strlit("DuplicateId(");
    reveal_strlit("PatchId(");
    reveal_strlit("DanglingDependency { patch: PatchId(");
    reveal_strlit("DanglingDependency { patch: ");
    reveal_strlit("), missing: PatchId(");
    reveal_strlit(", missing: ");
    reveal_strlit(" }");
    reveal_strlit("UnreviewedAi(PatchId(");
    reveal_strlit("UnreviewedAi(");
    reveal_strlit("Aborted { patch: PatchId(");
    reveal_strlit("Aborted { patch: ");
    reveal_strlit("), cause: ");
    reveal_strlit(", cause: ");
    assert("UnknownTarget(NodeId("@ =~= "UnknownTarget("@ + "NodeId("@);
    assert("DuplicateNode(NodeId("@ =~= "DuplicateNode("@ + "NodeId("@);
    assert("NotRemovable(NodeId("@ =~= "NotRemovable("@ + "NodeId("@);
    assert("))"@ =~= ")"@ + ")"@);
    assert("RangeOutOfBounds(CharRange { start: Pos("@ =~= "RangeOutOfBounds("@ + "CharRange { start: Pos("@);
    assert(") })"@ =~= ") }"@ + ")"@);
    assert("IndexOutOfBounds { parent: NodeId("@ =~= "IndexOutOfBounds { parent: "@ + "NodeId("@);
    assert("), index: "@ =~= ")"@ + ", index: "@);
    assert("DuplicateId(PatchId("@ =~= "DuplicateId("@ + "PatchId("@);
    assert("DanglingDependency { patch: PatchId("@ =~= "DanglingDependency { patch: "@ + "PatchId("@);
    assert("), missing: PatchId("@ =~= ")"@ + ", missing: "@ + "PatchId("@);
    assert(") }"@ =~= ")"@ + " }"@);
    assert("UnreviewedAi(PatchId("@ =~= "UnreviewedAi("@ + "PatchId("@);
    assert("Aborted { patch: PatchId("@ =~= "Aborted { patch: "@ + "PatchId("@);
    assert("), cause: "@ =~= ")"@ + ", cause: "@);
}

} // verus!
