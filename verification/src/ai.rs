//! Asking an AI for edits: what it is asked, and what is made of its replies.
use crate::json;
use crate::json::{parse_json_list, text_field, JsonTree};
use crate::ops;
use crate::ops::NodeId;
use crate::text;
use crate::text::{chars_of, matches_at, same_text, text_slice, trim_range, trim_text};
use serde_json::Value;
use vstd::prelude::*;
use vstd::string::*;

verus! {

/// One edit that an AI proposes: the text that it saw, the text that it wants, and whether the
/// edit is ticked.
#[derive(Debug, PartialEq)]
pub struct AiChange {
    pub node: NodeId,
    pub old: String,
    pub new: String,
    pub selected: bool,
}

/// What an `AiChange` holds.
#[verifier::ext_equal]
pub struct ChangeView {
    pub node: Seq<char>,
    pub old: Seq<char>,
    pub new: Seq<char>,
    pub selected: bool,
}

impl View for AiChange {
    type V = ChangeView;

    open spec fn view(&self) -> ChangeView {
        ChangeView { node: self.node@, old: self.old@, new: self.new@, selected: self.selected }
    }
}

impl Clone for AiChange {
    fn clone(&self) -> (r: Self)
        ensures
            r == *self,
    {
        AiChange {
            node: self.node.clone(),
            old: self.old.clone(),
            new: self.new.clone(),
            selected: self.selected,
        }
    }
}

/// The edits that wait for review. They touch nothing until they are accepted.
#[derive(Debug, PartialEq)]
pub struct AiProposal {
    pub changes: Vec<AiChange>,
}

/// A request to an AI, with the texts as they were when it went out.
#[derive(Debug, PartialEq)]
pub enum AiRequest {
    /// Rewrite one node.
    Single { node: NodeId, old: String },
    /// Clean the whole document.
    CleanAll { olds: Vec<(NodeId, String)> },
}

/// What came back on a request: the words of the AI, or why the call failed.
#[derive(Debug, PartialEq)]
pub struct AiReply {
    pub request: AiRequest,
    pub result: Result<String, String>,
}

// ---------------------------------------------------------------- prompts

/// What a request to rewrite begins with.
pub const REWRITE_TASK: &'static str = "你是文档润色助手。改写下面这段话，使其更通顺、专业、简洁；保持原意、保持中文、保留专有名词与数字；只输出改写后的正文，不要任何解释、前后缀、引号或 markdown。\n\n原文：\n";

/// What a request to clean begins with.
pub const CLEAN_TASK: &'static str = "你是文档清理助手。下面是一篇文档的段落列表，每段开头方括号里是它的 id。\n任务：找出需要清理的段落——删除明显的测试杂质（如插在正文里的无意义数字串 1111/2222/333333 等）、修正明显的误植；其余内容**原样保留**，不要做风格性改写，不要动没有问题的段落。\n只输出一个 JSON 数组，元素形如 {\"id\": \"...\", \"new\": \"...\"}，**只包含需要修改的段落**；没有要改的就输出 []。不要任何解释、markdown 代码栅栏或其它文本。\n\n";

/// The prompt for rewriting one text.
pub fn ai_rewrite_prompt(text: &str) -> (out: String)
    ensures
        out@ == REWRITE_TASK@ + text@,
{
    let mut out = REWRITE_TASK.to_string();
    out.append(text);
    out
}

/// The first `n` segments as lines `[id] text`.
pub open spec fn segment_lines(segments: Seq<(Seq<char>, Seq<char>)>, n: int) -> Seq<char>
    decreases n,
{
    if n <= 0 {
        Seq::empty()
    } else {
        segment_lines(segments, n - 1) + "["@ + segments[n - 1].0 + "] "@ + segments[n - 1].1
            + "\n"@
    }
}

/// The prompt for cleaning a document: every segment with its id.
pub fn ai_clean_prompt(segments: &[(NodeId, String)]) -> (out: String)
    ensures
        out@ == CLEAN_TASK@ + segment_lines(ops::seen(segments@), segments@.len() as int),
{
    let ghost views = ops::seen(segments@);
    let mut out = CLEAN_TASK.to_string();
    proof {
        assert(out@ =~= CLEAN_TASK@ + segment_lines(views, 0));
    }
    let mut i: usize = 0;
    while i < segments.len()
        invariant
            i <= segments@.len(),
            views == ops::seen(segments@),
            out@ == CLEAN_TASK@ + segment_lines(views, i as int),
        decreases segments@.len() - i,
    {
        proof {
            assert(views[i as int].0 == segments@[i as int].0@);
            assert(views[i as int].1 == segments@[i as int].1@);
        }
        out.append("[");
        out.append(segments[i].0.0.as_str());
        out.append("] ");
        out.append(segments[i].1.as_str());
        out.append("\n");
        i += 1;
        proof {
            assert(out@ =~= CLEAN_TASK@ + segment_lines(views, i as int));
        }
    }
    out
}

// ---------------------------------------------------------------- replies

/// A text without the line feeds at its beginning.
pub open spec fn without_feeds(s: Seq<char>) -> Seq<char>
    decreases s.len(),
{
    if s.len() > 0 && s[0] == '\n' {
        without_feeds(s.skip(1))
    } else {
        s
    }
}

/// The last position before `n` at which `pat` stands in `s`.
pub open spec fn find_last(s: Seq<char>, pat: Seq<char>, n: int) -> Option<int>
    decreases n,
{
    if n <= 0 {
        None
    } else if text::stands_at(s, pat, n - 1) {
        Some(n - 1)
    } else {
        find_last(s, pat, n - 1)
    }
}

/// What stands inside a code fence: the first line goes, and all from the last fence on.
pub open spec fn unfenced(s: Seq<char>) -> Seq<char> {
    let body = without_feeds(s.skip(text::line_end(s, 0)));
    text::trimmed(
        match find_last(body, "```"@, body.len() as int) {
            Some(end) => body.take(end),
            None => body,
        },
    )
}

/// A text without a pair of quotation marks around it.
pub open spec fn unquoted(s: Seq<char>, open: char, close: char) -> Seq<char> {
    if s.len() >= 2 && s[0] == open && s.last() == close {
        text::trimmed(s.subrange(1, s.len() - 1))
    } else {
        s
    }
}

/// The text that a reply proposes: without white space around it, without a code fence, and
/// without quotation marks around the whole.
pub open spec fn reply_text(reply: Seq<char>) -> Seq<char> {
    let s = text::trimmed(reply);
    let bare = if text::begins(s, "```"@) {
        unfenced(s)
    } else {
        s
    };
    unquoted(unquoted(unquoted(bare, '"', '"'), '“', '”'), '「', '」')
}

/// Takes the code fence off `chars`.
fn unfence(chars: &Vec<char>) -> (out: Vec<char>)
    ensures
        out@ == unfenced(chars@),
{
    let n = chars.len();
    let fence = chars_of("```");
    let mut a: usize = 0;
    while a < n && chars[a] != '\n'
        invariant
            a <= n,
            n == chars@.len(),
            text::line_end(chars@, 0) == text::line_end(chars@, a as int),
        decreases n - a,
    {
        a += 1;
    }
    let ghost start = a as int;
    proof {
        assert(text::line_end(chars@, 0) == a);
    }
    while a < n && chars[a] == '\n'
        invariant
            start <= a <= n,
            n == chars@.len(),
            without_feeds(chars@.skip(start)) == without_feeds(chars@.skip(a as int)),
        decreases n - a,
    {
        proof {
            assert(chars@.skip(a as int).skip(1) =~= chars@.skip(a + 1));
        }
        a += 1;
    }
    let ghost body = chars@.skip(a as int);
    proof {
        assert(without_feeds(body) == body);
        assert(unfenced(chars@) == text::trimmed(
            match find_last(body, "```"@, body.len() as int) {
                Some(end) => body.take(end),
                None => body,
            },
        ));
    }
    let rest = copy_range(chars, a, n);
    proof {
        assert(rest@ =~= body);
    }
    let mut end: usize = rest.len();
    let mut k: usize = rest.len();
    while k > 0 && end == rest.len()
        invariant
            k <= end <= rest@.len(),
            rest@ == body,
            fence@ == "```"@,
            end == rest@.len() ==> find_last(body, "```"@, body.len() as int) == find_last(
                body,
                "```"@,
                k as int,
            ),
            end < rest@.len() ==> find_last(body, "```"@, body.len() as int) == Some(end as int),
        decreases k,
    {
        if matches_at(rest.as_slice(), fence.as_slice(), k - 1) {
            end = k - 1;
        }
        k -= 1;
    }
    let (from, to) = trim_range(rest.as_slice(), 0, end);
    proof {
        assert(rest@.subrange(0, end as int) =~= body.take(end as int));
        if end == rest@.len() {
            assert(body.take(end as int) =~= body);
        }
    }
    copy_range(&rest, from, to)
}

/// Copies `chars[from..to]`.
fn copy_range(chars: &Vec<char>, from: usize, to: usize) -> (out: Vec<char>)
    requires
        from <= to <= chars@.len(),
    ensures
        out@ == chars@.subrange(from as int, to as int),
{
    let mut out: Vec<char> = Vec::new();
    let mut i: usize = from;
    while i < to
        invariant
            from <= i <= to <= chars@.len(),
            out@ == chars@.subrange(from as int, i as int),
        decreases to - i,
    {
        out.push(chars[i]);
        i += 1;
    }
    out
}

/// Takes a pair of quotation marks off.
fn unquote(chars: Vec<char>, open: char, close: char) -> (out: Vec<char>)
    ensures
        out@ == unquoted(chars@, open, close),
{
    let n = chars.len();
    if n >= 2 && chars[0] == open && chars[n - 1] == close {
        let (from, to) = trim_range(chars.as_slice(), 1, n - 1);
        copy_range(&chars, from, to)
    } else {
        chars
    }
}

/// Cleans a reply: white space, a code fence and quotation marks around the whole are taken off.
pub fn parse_ai_reply(reply: &str) -> (out: String)
    ensures
        out@ == reply_text(reply@),
{
    let trimmed = trim_text(reply);
    let chars = chars_of(trimmed.as_str());
    let fence = chars_of("```");
    let bare = if matches_at(chars.as_slice(), fence.as_slice(), 0) {
        unfence(&chars)
    } else {
        chars
    };
    let plain = unquote(unquote(unquote(bare, '"', '"'), '“', '”'), '「', '」');
    let n = plain.len();
    proof {
        assert(plain@.subrange(0, n as int) =~= plain@);
    }
    text_slice(plain.as_slice(), 0, n)
}

/// The text of a node when the request went out; the last entry of a node counts.
pub open spec fn old_of(olds: Seq<(Seq<char>, Seq<char>)>, id: Seq<char>) -> Option<Seq<char>>
    decreases olds.len(),
{
    if olds.len() == 0 {
        None
    } else if olds.last().0 == id {
        Some(olds.last().1)
    } else {
        old_of(olds.drop_last(), id)
    }
}

/// The edit that an item of a reply proposes: it names a node of the request, and a text that is
/// not the one that the node had.
pub open spec fn item_change(item: JsonTree, olds: Seq<(Seq<char>, Seq<char>)>) -> Option<ChangeView> {
    match (item.text("id"@), item.text("new"@)) {
        (Some(id), Some(new)) => match old_of(olds, id) {
            Some(old) => if old != new {
                Some(ChangeView { node: id, old, new, selected: true })
            } else {
                None
            },
            None => None,
        },
        _ => None,
    }
}

/// The edits that the first `n` items propose.
pub open spec fn item_changes(
    items: Seq<JsonTree>,
    olds: Seq<(Seq<char>, Seq<char>)>,
    n: int,
) -> Seq<ChangeView>
    decreases n,
{
    if n <= 0 {
        Seq::empty()
    } else {
        match item_change(items[n - 1], olds) {
            Some(c) => item_changes(items, olds, n - 1).push(c),
            None => item_changes(items, olds, n - 1),
        }
    }
}

fn find_old<'a>(olds: &'a [(NodeId, String)], id: &str) -> (r: Option<&'a String>)
    ensures
        match r {
            Some(s) => old_of(ops::seen(olds@), id@) == Some(s@),
            None => old_of(ops::seen(olds@), id@) is None,
        },
{
    let ghost views = ops::seen(olds@);
    let mut k: usize = olds.len();
    proof {
        assert(views.take(k as int) =~= views);
    }
    while k > 0
        invariant
            k <= olds@.len(),
            views == ops::seen(olds@),
            old_of(views, id@) == old_of(views.take(k as int), id@),
        decreases k,
    {
        k -= 1;
        proof {
            assert(views.take(k + 1).drop_last() =~= views.take(k as int));
            assert(views.take(k + 1).last().0 == olds@[k as int].0@);
            assert(views.take(k + 1).last().1 == olds@[k as int].1@);
        }
        if same_text(olds[k].0.0.as_str(), id) {
            return Some(&olds[k].1);
        }
    }
    None
}

/// The edits that the items of a reply propose, and how many items propose none.
pub fn clean_changes(items: &Vec<Value>, olds: &[(NodeId, String)]) -> (r: (Vec<AiChange>, usize))
    ensures
        ops::seen(r.0@) == item_changes(
            json::trees(items@),
            ops::seen(olds@),
            items@.len() as int,
        ),
        r.1 == items@.len() - r.0@.len(),
{
    let ghost trees = json::trees(items@);
    let ghost views = ops::seen(olds@);
    let mut changes: Vec<AiChange> = Vec::new();
    let mut dropped: usize = 0;
    proof {
        assert(ops::seen(changes@) =~= Seq::empty());
    }
    let mut i: usize = 0;
    while i < items.len()
        invariant
            i <= items@.len(),
            trees == json::trees(items@),
            views == ops::seen(olds@),
            ops::seen(changes@) == item_changes(trees, views, i as int),
            changes@.len() + dropped == i,
        decreases items@.len() - i,
    {
        let item = &items[i];
        let ghost before = ops::seen(changes@);
        proof {
            assert(trees[i as int] == json::json_tree(*item));
        }
        let mut found: Option<AiChange> = None;
        if let (Some(id), Some(new)) = (text_field(item, "id"), text_field(item, "new")) {
            if let Some(old) = find_old(olds, id) {
                if !same_text(old.as_str(), new) {
                    found = Some(
                        AiChange {
                            node: NodeId(id.to_string()),
                            old: old.clone(),
                            new: new.to_string(),
                            selected: true,
                        },
                    );
                }
            }
        }
        match found {
            Some(c) => {
                let ghost view = c@;
                changes.push(c);
                proof {
                    assert(ops::seen(changes@) =~= before.push(view));
                }
            },
            None => {
                dropped += 1;
            },
        }
        i += 1;
    }
    (changes, dropped)
}

/// What a reply to a request to clean gives: the edits and the number of items that propose none,
/// or the message of the error.
pub open spec fn clean_outcome(raw: Seq<char>, olds: Seq<(Seq<char>, Seq<char>)>) -> Result<
    (Seq<ChangeView>, int),
    Seq<char>,
> {
    match json::json_list_of(reply_text(raw)) {
        Ok(items) => {
            let changes = item_changes(items, olds, items.len() as int);
            Ok((changes, items.len() - changes.len()))
        },
        Err(e) => Err("模型回复不是合法 JSON 数组: "@ + e),
    }
}

/// Reads a reply to a request to clean: a JSON array of records with `id` and `new`.
pub fn parse_clean_reply(raw: &str, olds: &[(NodeId, String)]) -> (r: Result<
    (Vec<AiChange>, usize),
    String,
>)
    ensures
        match (r, clean_outcome(raw@, ops::seen(olds@))) {
            (Ok((changes, dropped)), Ok((want, lost))) => ops::seen(changes@) == want && dropped
                == lost,
            (Err(e), Err(why)) => e@ == why,
            _ => false,
        },
{
    let cleaned = parse_ai_reply(raw);
    match parse_json_list(cleaned.as_str()) {
        Ok(items) => Ok(clean_changes(&items, olds)),
        Err(e) => {
            let mut why = "模型回复不是合法 JSON 数组: ".to_string();
            why.append(e.as_str());
            Err(why)
        },
    }
}

/// What the outcome of running an AI program says.
pub open spec fn tool_outcome(
    program: Seq<char>,
    success: bool,
    stdout: Seq<char>,
    stderr: Seq<char>,
) -> Result<Seq<char>, Seq<char>> {
    if success {
        Ok(stdout)
    } else {
        Err(program + " 调用失败: "@ + text::trimmed(stdout) + " "@ + text::trimmed(stderr))
    }
}

/// Reads what a run of an AI program left. A failure may be told on either output.
pub fn tool_reply(program: &str, success: bool, stdout: String, stderr: &str) -> (r: Result<
    String,
    String,
>)
    ensures
        match r {
            Ok(s) => tool_outcome(program@, success, stdout@, stderr@) == Ok::<
                Seq<char>,
                Seq<char>,
            >(s@),
            Err(e) => tool_outcome(program@, success, stdout@, stderr@) == Err::<
                Seq<char>,
                Seq<char>,
            >(e@),
        },
{
    if success {
        Ok(stdout)
    } else {
        let mut e = program.to_string();
        e.append(" 调用失败: ");
        e.append(trim_text(stdout.as_str()).as_str());
        e.append(" ");
        e.append(trim_text(stderr).as_str());
        Err(e)
    }
}

// ---------------------------------------------------------------- laws

/// Every edit that a reply gives is for a node of the request, starts from the text that this node
/// had, changes it, and is ticked.
pub proof fn law_clean_changes_are_for_requested_nodes(
    items: Seq<JsonTree>,
    olds: Seq<(Seq<char>, Seq<char>)>,
    n: int,
    i: int,
)
    requires
        0 <= n <= items.len(),
        0 <= i < item_changes(items, olds, n).len(),
    ensures
        ({
            let c = item_changes(items, olds, n)[i];
            &&& old_of(olds, c.node) == Some(c.old)
            &&& c.old != c.new
            &&& c.selected
        }),
        item_changes(items, olds, n).len() <= n,
    decreases n,
{
    if n > 0 {
        let rest = item_changes(items, olds, n - 1);
        if i < rest.len() {
            law_clean_changes_are_for_requested_nodes(items, olds, n - 1, i);
        } else {
            lemma_changes_len(items, olds, n - 1);
        }
    }
}

proof fn lemma_changes_len(items: Seq<JsonTree>, olds: Seq<(Seq<char>, Seq<char>)>, n: int)
    requires
        0 <= n,
    ensures
        item_changes(items, olds, n).len() <= n,
    decreases n,
{
    if n > 0 {
        lemma_changes_len(items, olds, n - 1);
    }
}

} // verus!
