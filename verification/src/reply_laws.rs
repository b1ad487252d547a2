//! What is asked of an AI program and what is taken from its replies.
use crate::ai;
use crate::ai::ChangeView;
use crate::json;
use crate::json::JsonTree;
use crate::ops::NodeKind;
use crate::outline::ShownBlock;
use crate::review;
use crate::review::RequestView;
use crate::session::Session;
use crate::text;
use crate::text_laws;
use vstd::prelude::*;

verus! {

// ---------------------------------------------------------------- the text of a reply

/// The text stands between these two marks.
pub open spec fn stands_between(s: Seq<char>, open: char, close: char) -> bool {
    s.len() >= 2 && s[0] == open && s.last() == close
}

/// The text stands in one of the pairs of quotation marks.
pub open spec fn is_quoted(s: Seq<char>) -> bool {
    stands_between(s, '"', '"') || stands_between(s, '“', '”') || stands_between(s, '「', '」')
}

/// A reply that neither begins with a code fence nor stands in a pair of quotation marks is taken
/// whole: all of it but the white space around it, line feeds inside included.
pub proof fn law_plain_reply_is_taken_whole(reply: Seq<char>)
    requires
        !text::begins(text::trimmed(reply), "```"@),
        !is_quoted(text::trimmed(reply)),
    ensures
        ai::reply_text(reply) == text::trimmed(reply),
        text_laws::is_trimmed(reply, ai::reply_text(reply)),
{
    text_laws::law_trimming(reply);
}

/// A reply in a pair of quotation marks, and in no second one, is what stands between them, without
/// white space around it.
pub proof fn law_quotation_marks_come_off(reply: Seq<char>, inner: Seq<char>, open: char, close: char)
    requires
        (open == '"' && close == '"') || (open == '“' && close == '”') || (open == '「' && close
            == '」'),
        text::trimmed(reply) == seq![open] + inner + seq![close],
        !is_quoted(text::trimmed(inner)),
    ensures
        ai::reply_text(reply) == text::trimmed(inner),
{
    reveal_strlit("```");
    let s = text::trimmed(reply);
    assert(s.subrange(1, s.len() - 1) =~= inner);
    if text::begins(s, "```"@) {
        assert(s.subrange(0, 3)[0] == "```"@[0]);
    }
}

proof fn lemma_without_feeds(s: Seq<char>) -> (k: int)
    ensures
        0 <= k <= s.len(),
        ai::without_feeds(s) == s.skip(k),
        forall|i: int| 0 <= i < k ==> #[trigger] s[i] == '\n',
        k < s.len() ==> s[k] != '\n',
    decreases s.len(),
{
    if s.len() > 0 && s[0] == '\n' {
        let j = lemma_without_feeds(s.skip(1));
        assert(s.skip(1).skip(j) =~= s.skip(j + 1));
        assert forall|i: int| 0 <= i < j + 1 implies #[trigger] s[i] == '\n' by {
            if i > 0 {
                assert(s.skip(1)[i - 1] == s[i]);
            }
        }
        if j + 1 < s.len() {
            assert(s.skip(1)[j] == s[j + 1]);
        }
        j + 1
    } else {
        assert(s.skip(0) =~= s);
        0
    }
}

proof fn lemma_find_last(s: Seq<char>, pat: Seq<char>, n: int, at: int)
    requires
        0 <= at < n,
        text::stands_at(s, pat, at),
        forall|j: int| at < j < n ==> !#[trigger] text::stands_at(s, pat, j),
    ensures
        ai::find_last(s, pat, n) == Some(at),
    decreases n,
{
    if at < n - 1 {
        lemma_find_last(s, pat, n - 1, at);
    }
}

proof fn lemma_trim_front(s: Seq<char>, k: int)
    requires
        0 <= k <= s.len(),
        forall|i: int| 0 <= i < k ==> #[trigger] s[i] == '\n',
    ensures
        text::trimmed(s.skip(k)) == text::trimmed(s),
{
    let t = text::trimmed(s.skip(k));
    text_laws::law_trimming(s.skip(k));
    let u = s.skip(k);
    let a = choose|a: int|
        0 <= a <= u.len() - t.len() && t == #[trigger] u.subrange(a, a + t.len()) && (forall|i: int|
            (0 <= i < a || a + t.len() <= i < u.len()) ==> text::is_white(#[trigger] u[i]));
    assert(t =~= s.subrange(a + k, a + k + t.len()));
    assert forall|i: int| (0 <= i < a + k || a + k + t.len() <= i < s.len()) implies text::is_white(
        #[trigger] s[i],
    ) by {
        if i >= k {
            assert(u[i - k] == s[i]);
        }
    }
    text_laws::lemma_trimmed_is_unique(s, t);
}

/// A reply in a code fence is what stands inside: the line with the opening fence goes, whatever
/// language it names, and so does all from the last fence on.
pub proof fn law_code_fences_come_off(
    reply: Seq<char>,
    language: Seq<char>,
    body: Seq<char>,
    behind: Seq<char>,
)
    requires
        text::trimmed(reply) == "```"@ + language + seq!['\n'] + body + "```"@ + behind,
        forall|i: int| 0 <= i < language.len() ==> #[trigger] language[i] != '\n',
        forall|j: int|
            j > body.len() ==> !#[trigger] text::stands_at(body + "```"@ + behind, "```"@, j),
        !is_quoted(text::trimmed(body)),
    ensures
        ai::reply_text(reply) == text::trimmed(body),
{
    reveal_strlit("```");
    let fence = "```"@;
    let s = text::trimmed(reply);
    let inner = body + fence + behind;
    let n = 3 + language.len();
    assert(fence.len() == 3 && fence[0] == '`' && fence[1] == '`' && fence[2] == '`');
    assert(s =~= fence + language + seq!['\n'] + inner);
    assert(s.subrange(0, 3) =~= fence);
    assert forall|i: int| 0 <= i < n implies #[trigger] s[i] != '\n' by {
        if i < 3 {
            assert(s[i] == fence[i]);
        } else {
            assert(s[i] == language[i - 3]);
        }
    }
    text_laws::lemma_line_end(s, n as int, 0);
    let rest = s.skip(n as int);
    assert(rest =~= seq!['\n'] + inner);
    let k = lemma_without_feeds(rest);
    assert(k > 0) by {
        assert(rest[0] == '\n');
    }
    let f = k - 1;
    assert(rest.skip(k) =~= inner.skip(f));
    assert(f <= body.len()) by {
        if f > body.len() {
            assert(rest[(1 + body.len()) as int] == inner[body.len() as int]);
            assert(inner[body.len() as int] == fence[0]);
        }
    }
    let cut = inner.skip(f);
    let at = body.len() - f;
    assert(cut.subrange(at, at + 3) =~= fence);
    assert forall|j: int| at < j < cut.len() implies !#[trigger] text::stands_at(cut, fence, j) by {
        if text::stands_at(cut, fence, j) {
            assert(inner.subrange(j + f, j + f + 3) =~= cut.subrange(j, j + 3));
            assert(text::stands_at(inner, fence, j + f));
        }
    }
    lemma_find_last(cut, fence, cut.len() as int, at);
    assert(cut.take(at) =~= body.skip(f));
    assert forall|i: int| 0 <= i < f implies #[trigger] body[i] == '\n' by {
        assert(rest[i + 1] == body[i]);
    }
    lemma_trim_front(body, f);
}

/// Pairs inside pairs: of a text in double quotation marks those come off first, then a pair of curly
/// ones, then a pair of corner brackets; a pair that stands further inside stays.
pub proof fn law_quotation_marks_inside_others(reply: Seq<char>, inner: Seq<char>)
    ensures
        text::trimmed(reply) == seq!['「'] + inner + seq!['」'] ==> ai::reply_text(reply)
            == text::trimmed(inner),
        text::trimmed(reply) == seq!['“'] + inner + seq!['”'] ==> ai::reply_text(reply) == (
        if stands_between(text::trimmed(inner), '「', '」') {
            ai::reply_text(text::trimmed(inner))
        } else {
            text::trimmed(inner)
        }),
        text::trimmed(reply) == seq!['"'] + inner + seq!['"'] ==> ai::reply_text(reply) == (
        if stands_between(text::trimmed(inner), '“', '”') || stands_between(
            text::trimmed(inner),
            '「',
            '」',
        ) {
            ai::reply_text(text::trimmed(inner))
        } else {
            text::trimmed(inner)
        }),
{
    reveal_strlit("```");
    let s = text::trimmed(reply);
    let t = text::trimmed(inner);
    assert("```"@.len() == 3 && "```"@[0] == '`');
    if s.len() == inner.len() + 2 {
        assert(s.subrange(1, s.len() - 1) =~= inner || s != seq!['「'] + inner + seq!['」']);
        assert(s.subrange(1, s.len() - 1) =~= inner || s != seq!['“'] + inner + seq!['”']);
        assert(s.subrange(1, s.len() - 1) =~= inner || s != seq!['"'] + inner + seq!['"']);
    }
    if text::begins(s, "```"@) {
        assert(s.subrange(0, 3)[0] == "```"@[0]);
    }
    if text::begins(t, "```"@) {
        assert(t.subrange(0, 3)[0] == "```"@[0]);
    }
    lemma_trimmed_again(inner);
}

proof fn lemma_trimmed_again(s: Seq<char>)
    ensures
        text::trimmed(text::trimmed(s)) == text::trimmed(s),
{
    let t = text::trimmed(s);
    text_laws::law_trimming(s);
    let a = 0int;
    assert(t.subrange(a, a + t.len()) =~= t);
    text_laws::lemma_trimmed_is_unique(t, t);
}

/// A code fence that is never closed goes with its line, and all that follows is taken. A fence with
/// nothing behind its line holds nothing.
pub proof fn law_open_code_fences(reply: Seq<char>, language: Seq<char>, body: Seq<char>)
    requires
        forall|i: int| 0 <= i < language.len() ==> #[trigger] language[i] != '\n',
    ensures
        text::trimmed(reply) == "```"@ + language ==> ai::reply_text(reply).len() == 0,
        text::trimmed(reply) == "```"@ + language + seq!['\n'] + body && !text_laws::occurs(
            body,
            "```"@,
        ) && !is_quoted(text::trimmed(body)) ==> ai::reply_text(reply) == text::trimmed(body),
{
    reveal_strlit("```");
    let fence = "```"@;
    let s = text::trimmed(reply);
    let n = (3 + language.len()) as int;
    assert(fence.len() == 3 && fence[0] == '`' && fence[1] == '`' && fence[2] == '`');
    if s == fence + language {
        assert(s.subrange(0, 3) =~= fence);
        assert forall|i: int| 0 <= i < n implies #[trigger] s[i] != '\n' by {
            if i < 3 {
                assert(s[i] == fence[i]);
            } else {
                assert(s[i] == language[i - 3]);
            }
        }
        text_laws::lemma_line_end(s, n, 0);
        let rest = s.skip(n);
        assert(rest =~= Seq::empty());
        assert(ai::without_feeds(rest) =~= Seq::empty());
        assert(ai::find_last(Seq::empty(), fence, 0) is None);
        assert(text::trimmed(Seq::empty()).len() == 0);
    }
    if s == fence + language + seq!['\n'] + body && !text_laws::occurs(body, fence) {
        assert(s.subrange(0, 3) =~= fence);
        assert forall|i: int| 0 <= i < n implies #[trigger] s[i] != '\n' by {
            if i < 3 {
                assert(s[i] == fence[i]);
            } else {
                assert(s[i] == language[i - 3]);
            }
        }
        text_laws::lemma_line_end(s, n, 0);
        let rest = s.skip(n);
        assert(rest =~= seq!['\n'] + body);
        let k = lemma_without_feeds(rest);
        assert(k > 0) by {
            assert(rest[0] == '\n');
        }
        let f = k - 1;
        assert(rest.skip(k) =~= body.skip(f));
        let cut = body.skip(f);
        lemma_no_last(body, f, fence, cut.len() as int);
        assert forall|i: int| 0 <= i < f implies #[trigger] body[i] == '\n' by {
            assert(rest[i + 1] == body[i]);
        }
        lemma_trim_front(body, f);
    }
}

proof fn lemma_no_last(body: Seq<char>, f: int, pat: Seq<char>, n: int)
    requires
        0 <= f <= body.len(),
        n <= body.len() - f,
        !text_laws::occurs(body, pat),
    ensures
        ai::find_last(body.skip(f), pat, n) is None,
    decreases n,
{
    if n > 0 {
        let cut = body.skip(f);
        if text::stands_at(cut, pat, n - 1) {
            let a = body.take(f + n - 1);
            let b = body.skip(f + n - 1 + pat.len());
            assert(cut.subrange(n - 1, n - 1 + pat.len()) =~= pat);
            assert(body =~= a + pat + b);
        }
        lemma_no_last(body, f, pat, n - 1);
    }
}

// ---------------------------------------------------------------- prompts

/// The segments of a request are listed one after the other, each on a line of its own with its id
/// in square brackets before its text.
pub proof fn law_segments_are_listed(
    segments: Seq<(Seq<char>, Seq<char>)>,
    id: Seq<char>,
    said: Seq<char>,
)
    ensures
        ai::segment_lines(segments, 0).len() == 0,
        ai::segment_lines(segments.push((id, said)), (segments.len() + 1) as int) == ai::segment_lines(
            segments,
            segments.len() as int,
        ) + (seq!['['] + id + seq![']', ' '] + said + seq!['\n']),
{
    reveal_strlit("[");
    reveal_strlit("] ");
    reveal_strlit("\n");
    let n = segments.len() as int;
    lemma_lines_prefix(segments, (id, said), n);
    assert("["@ =~= seq!['['] && "] "@ =~= seq![']', ' '] && "\n"@ =~= seq!['\n']);
    assert(ai::segment_lines(segments.push((id, said)), n + 1) =~= ai::segment_lines(segments, n) + (
    seq!['['] + id + seq![']', ' '] + said + seq!['\n']));
}

proof fn lemma_lines_prefix(
    segments: Seq<(Seq<char>, Seq<char>)>,
    last: (Seq<char>, Seq<char>),
    n: int,
)
    requires
        n <= segments.len(),
    ensures
        ai::segment_lines(segments.push(last), n) == ai::segment_lines(segments, n),
    decreases n,
{
    if n > 0 {
        lemma_lines_prefix(segments, last, n - 1);
    }
}

/// What is sent to be cleaned: the blocks that are not opaque, in order, each with its node and its
/// text, and no more than the first hundred.
pub proof fn law_what_is_sent_to_be_cleaned(blocks: Seq<ShownBlock>, b: ShownBlock, i: int)
    ensures
        review::segments(Seq::empty()).len() == 0,
        review::segments(blocks.push(b)) == if b.kind == NodeKind::Opaque {
            review::segments(blocks)
        } else {
            review::segments(blocks).push((b.node, b.text))
        },
        ({
            let all = review::segments(blocks);
            let sent = review::first_segments(all);
            &&& sent.len() == if all.len() <= 100 {
                all.len()
            } else {
                100
            }
            &&& 0 <= i < sent.len() ==> sent[i] == all[i]
        }),
{
    reveal(Seq::filter);
    assert(blocks.push(b).drop_last() =~= blocks);
    assert(review::segments(blocks.push(b)) =~= if b.kind == NodeKind::Opaque {
        review::segments(blocks)
    } else {
        review::segments(blocks).push((b.node, b.text))
    });
}

/// A request goes out exactly if none is under way and there is something to ask about. It holds the
/// texts as they are, and its prompt ends with what it is about.
pub proof fn law_requests(s: Session, busy: bool, node: Seq<char>)
    ensures
        match s.rewrite_request(busy, node) {
            Some((request, prompt)) => {
                &&& !busy
                &&& s.doc.nodes.map.dom().contains(node)
                &&& request == (RequestView::Single { node, old: s.doc.nodes.map[node].text })
                &&& prompt == ai::REWRITE_TASK@ + s.doc.nodes.map[node].text
            },
            None => busy || !s.doc.nodes.map.dom().contains(node),
        },
        ({
            let olds = review::first_segments(review::segments(crate::outline::shown(s.doc)));
            match s.clean_request(busy) {
                Some((request, prompt)) => {
                    &&& !busy
                    &&& olds.len() > 0
                    &&& request == (RequestView::CleanAll { olds })
                    &&& prompt == ai::CLEAN_TASK@ + ai::segment_lines(olds, olds.len() as int)
                },
                None => busy || olds.len() == 0,
            }
        }),
{
}

// ---------------------------------------------------------------- edits of a reply

/// The text that a node had in a request: that of the last entry with its id.
pub proof fn law_text_in_the_request(olds: Seq<(Seq<char>, Seq<char>)>, id: Seq<char>, i: int)
    ensures
        0 <= i < olds.len() && olds[i].0 == id && (forall|j: int|
            i < j < olds.len() ==> (#[trigger] olds[j]).0 != id) ==> ai::old_of(olds, id) == Some(
            olds[i].1,
        ),
        (forall|j: int| 0 <= j < olds.len() ==> (#[trigger] olds[j]).0 != id) ==> ai::old_of(
            olds,
            id,
        ) is None,
    decreases olds.len(),
{
    if olds.len() > 0 {
        let rest = olds.drop_last();
        law_text_in_the_request(rest, id, i);
        assert forall|j: int| 0 <= j < rest.len() implies #[trigger] rest[j] == olds[j] by {}
        if olds.last().0 != id {
            if 0 <= i < olds.len() && olds[i].0 == id && (forall|j: int|
                i < j < olds.len() ==> (#[trigger] olds[j]).0 != id) {
                assert(i < rest.len());
                assert(forall|j: int| i < j < rest.len() ==> (#[trigger] rest[j]).0 != id);
            }
            if forall|j: int| 0 <= j < olds.len() ==> (#[trigger] olds[j]).0 != id {
                assert(forall|j: int| 0 <= j < rest.len() ==> (#[trigger] rest[j]).0 != id);
            }
        } else {
            assert(olds[olds.len() - 1].0 == id);
        }
    }
}

/// An item of a reply is an edit exactly if it has a text under `id` that names a node of the request
/// and a text under `new` that is not the one that the node had; the edit leads from the one text to
/// the other and is ticked. Edits keep the order of the items, and all other items are counted.
pub proof fn law_items_of_a_reply(
    items: Seq<JsonTree>,
    item: JsonTree,
    olds: Seq<(Seq<char>, Seq<char>)>,
    id: Seq<char>,
    new: Seq<char>,
)
    ensures
        ({
            let n = items.len() as int;
            let was = ai::item_changes(items, olds, n);
            let now = ai::item_changes(items.push(item), olds, n + 1);
            &&& item.field("id"@) == Some(JsonTree::Str(id)) && item.field("new"@) == Some(
                JsonTree::Str(new),
            ) ==> match ai::old_of(olds, id) {
                Some(old) => if old == new {
                    now == was
                } else {
                    now == was.push(ChangeView { node: id, old, new, selected: true })
                },
                None => now == was,
            }
            &&& !(item.field("id"@) matches Some(JsonTree::Str(_))) ==> now == was
            &&& !(item.field("new"@) matches Some(JsonTree::Str(_))) ==> now == was
        }),
        ai::item_changes(items, olds, 0).len() == 0,
{
    lemma_changes_prefix(items, item, olds, items.len() as int);
}

proof fn lemma_changes_prefix(
    items: Seq<JsonTree>,
    item: JsonTree,
    olds: Seq<(Seq<char>, Seq<char>)>,
    n: int,
)
    requires
        n <= items.len(),
    ensures
        ai::item_changes(items.push(item), olds, n) == ai::item_changes(items, olds, n),
    decreases n,
{
    if n > 0 {
        lemma_changes_prefix(items, item, olds, n - 1);
    }
}

/// A reply to a request to clean: where its text is a JSON array, every item is an edit or is counted
/// as dropped; where it is not, that is the error.
pub proof fn law_clean_replies(raw: Seq<char>, olds: Seq<(Seq<char>, Seq<char>)>)
    ensures
        match json::json_list_of(ai::reply_text(raw)) {
            Ok(items) => {
                &&& ai::clean_outcome(raw, olds) matches Ok((changes, dropped))
                &&& changes == ai::item_changes(items, olds, items.len() as int)
                &&& changes.len() + dropped == items.len()
            },
            Err(e) => ai::clean_outcome(raw, olds) == Err::<(Seq<ChangeView>, int), Seq<char>>(
                "模型回复不是合法 JSON 数组: "@ + e,
            ),
        },
{
}

/// A program that ended well has its whole output for an answer, as it is; of one that failed both
/// outputs are told.
pub proof fn law_answers_of_programs(program: Seq<char>, stdout: Seq<char>, stderr: Seq<char>)
    ensures
        ai::tool_outcome(program, true, stdout, stderr) == Ok::<Seq<char>, Seq<char>>(stdout),
        ai::tool_outcome(program, false, stdout, stderr) == Err::<Seq<char>, Seq<char>>(
            program + " 调用失败: "@ + text::trimmed(stdout) + seq![' '] + text::trimmed(stderr),
        ),
{
    reveal_strlit(" ");
    assert(" "@ =~= seq![' ']);
}

// ---------------------------------------------------------------- proposals

/// An edit that comes in stands at the end of the proposal; an earlier edit of the same node is gone,
/// and all others stay in their order.
pub proof fn law_merging_an_edit(changes: Seq<ChangeView>, x: ChangeView, c: ChangeView)
    ensures
        review::merged(Seq::empty(), c) == seq![c],
        review::merged(changes, c).last() == c,
        review::merged(changes.push(x), c) == if x.node == c.node {
            review::merged(changes, c)
        } else {
            review::merged(changes, c).drop_last().push(x).push(c)
        },
{
    reveal(Seq::filter);
    let keep = |y: ChangeView| y.node != c.node;
    assert(changes.push(x).drop_last() =~= changes);
    assert(review::merged(Seq::empty(), c) =~= seq![c]);
    assert(review::merged(changes, c).drop_last() =~= changes.filter(keep));
    assert(review::merged(changes.push(x), c) =~= if x.node == c.node {
        review::merged(changes, c)
    } else {
        review::merged(changes, c).drop_last().push(x).push(c)
    });
}

/// A reply with a rewritten text is proposed exactly if it is not empty, the node still has the text
/// that was sent, and the new text is another one. Then it stands at the end of the proposal, ticked;
/// else the proposal is as before. Nothing else of the session changes but the status.
pub proof fn law_rewritten_texts(s: Session, node: Seq<char>, old: Seq<char>, raw: Seq<char>)
    ensures
        ({
            let t = s.received(RequestView::Single { node, old }, Ok(raw));
            let new = ai::reply_text(raw);
            let before = match s.pending {
                Some(changes) => changes,
                None => Seq::empty(),
            };
            &&& t == (Session { status: t.status, pending: t.pending, ..s })
            &&& new.len() > 0 && s.doc.nodes.map.dom().contains(node) && s.doc.nodes.map[node].text
                == old && new != old ==> t.pending == Some(
                review::merged(before, ChangeView { node, old, new, selected: true }),
            )
            &&& !(new.len() > 0 && s.doc.nodes.map.dom().contains(node)
                && s.doc.nodes.map[node].text == old && new != old) ==> t.pending == s.pending
        }),
        forall|e: Seq<char>, request: RequestView|
            #[trigger] s.received(request, Err(e)) == (Session {
                status: "AI 调用失败: "@ + e,
                ..s
            }),
{
}

/// The edits of a reply to a request to clean are taken in one after the other, those whose node
/// still has the text that was sent and no others. Nothing else of the session changes but the
/// status.
pub proof fn law_cleaned_texts(s: Session, cs: Seq<ChangeView>, c: ChangeView, dropped: nat)
    ensures
        ({
            let t = s.proposed(cs, dropped);
            t == (Session { status: t.status, pending: t.pending, ..s })
        }),
        s.proposed(Seq::empty(), dropped).pending == s.pending,
        ({
            let fresh = s.doc.nodes.map.dom().contains(c.node) && s.doc.nodes.map[c.node].text
                == c.old;
            let was = s.proposed(cs, dropped).pending;
            let now = s.proposed(cs.push(c), dropped).pending;
            &&& !fresh ==> now == was
            &&& fresh ==> now == Some(
                review::merged(
                    match was {
                        Some(changes) => changes,
                        None => Seq::empty(),
                    },
                    c,
                ),
            )
        }),
{
    reveal(Seq::filter);
    let doc = s.doc;
    let keep = |x: ChangeView| doc.has_text(x.node, x.old);
    let pending = review::waiting(s.pending);
    let fresh = review::still_fresh(doc, cs);
    let more = review::still_fresh(doc, cs.push(c));
    assert(cs.push(c).drop_last() =~= cs);
    assert(review::still_fresh(doc, Seq::empty()) =~= Seq::empty());
    if keep(c) {
        assert(more =~= fresh.push(c));
        lemma_merged_prefix(pending, fresh, c, fresh.len() as int);
    } else {
        assert(more =~= fresh);
    }
}

proof fn lemma_merged_prefix(
    pending: Seq<ChangeView>,
    cs: Seq<ChangeView>,
    c: ChangeView,
    n: int,
)
    requires
        n <= cs.len(),
    ensures
        review::merged_all(pending, cs.push(c), n) == review::merged_all(pending, cs, n),
    decreases n,
{
    if n > 0 {
        lemma_merged_prefix(pending, cs, c, n - 1);
    }
}

/// A reply to a request to clean: if it is a JSON array, its edits are proposed; if not, nothing
/// changes but the status, which says why.
pub proof fn law_received_clean_replies(
    s: Session,
    olds: Seq<(Seq<char>, Seq<char>)>,
    raw: Seq<char>,
)
    ensures
        match json::json_list_of(ai::reply_text(raw)) {
            Ok(items) => {
                let changes = ai::item_changes(items, olds, items.len() as int);
                s.received(RequestView::CleanAll { olds }, Ok(raw)) == s.proposed(
                    changes,
                    (items.len() - changes.len()) as nat,
                )
            },
            Err(e) => s.received(RequestView::CleanAll { olds }, Ok(raw)) == (Session {
                status: "AI 清理回复解析失败: "@ + ("模型回复不是合法 JSON 数组: "@ + e),
                ..s
            }),
        },
{
}

} // verus!
