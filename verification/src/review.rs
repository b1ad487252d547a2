//! The review of what an AI proposes: nothing of it reaches the document without being accepted.
use crate::ai;
use crate::ai::{
    ai_clean_prompt, ai_rewrite_prompt, parse_ai_reply, parse_clean_reply, AiChange, AiProposal,
    AiReply, AiRequest, ChangeView,
};
use crate::commit;
use crate::commit::{DocumentModel, Run};
use crate::doc;
use crate::doc::{Doc, Nodes};
use crate::laws;
use crate::offsets::{CharRange, Pos};
use crate::ops;
use crate::ops::{NodeId, NodeKind, Op, OpView, Patch, PatchView, SourceView, Target};
use crate::outline;
use crate::outline::{document_blocks, ShownBlock};
use crate::patchset;
use crate::patchset::PatchSet;
use crate::prose::ProseModel;
use crate::render;
use crate::render::render_html;
use crate::session;
use crate::session::{PolarisApp, Session};
use crate::text;
use crate::text::{count_text, measure, same_text};
use crate::tree;
use vstd::prelude::*;
use vstd::string::*;

verus! {

// ---------------------------------------------------------------- asking

/// The most segments that one request takes.
pub const MAX_SEGMENTS: usize = 100;

/// The blocks that may be rewritten, with their texts.
pub open spec fn segments(blocks: Seq<ShownBlock>) -> Seq<(Seq<char>, Seq<char>)> {
    blocks.filter(|b: ShownBlock| !(b.kind is Opaque)).map_values(
        |b: ShownBlock| (b.node, b.text),
    )
}

/// What a request to clean takes of the segments.
pub open spec fn first_segments(all: Seq<(Seq<char>, Seq<char>)>) -> Seq<(Seq<char>, Seq<char>)> {
    if all.len() <= MAX_SEGMENTS {
        all
    } else {
        all.take(MAX_SEGMENTS as int)
    }
}

/// What a request holds.
#[verifier::ext_equal]
pub enum RequestView {
    Single { node: Seq<char>, old: Seq<char> },
    CleanAll { olds: Seq<(Seq<char>, Seq<char>)> },
}

impl View for AiRequest {
    type V = RequestView;

    open spec fn view(&self) -> RequestView {
        match *self {
            AiRequest::Single { node, old } => RequestView::Single { node: node@, old: old@ },
            AiRequest::CleanAll { olds } => RequestView::CleanAll { olds: ops::seen(olds@) },
        }
    }
}

/// What a session answers when a request is still under way.
pub open spec fn busy_note() -> Seq<char> {
    "已有一个 AI 请求在路上，等它回来"@
}

impl Session {
    /// The request to rewrite a node, with its prompt; none while another one is under way or if
    /// there is no such node.
    pub open spec fn rewrite_request(self, busy: bool, node: Seq<char>) -> Option<
        (RequestView, Seq<char>),
    > {
        if busy || !self.doc.nodes.has(node) {
            None
        } else {
            let old = self.doc.nodes.map[node].text;
            Some((RequestView::Single { node, old }, ai::REWRITE_TASK@ + old))
        }
    }

    pub open spec fn rewrite_note(self, busy: bool, node: Seq<char>) -> Seq<char> {
        if busy {
            busy_note()
        } else if !self.doc.nodes.has(node) {
            node + " 不存在，无法发起 AI 提案"@
        } else {
            "AI 改写中…（"@ + node + "，约十秒）"@
        }
    }

    /// The request to clean the document, with its prompt; none while another one is under way or
    /// if there is nothing to clean.
    pub open spec fn clean_request(self, busy: bool) -> Option<(RequestView, Seq<char>)> {
        let olds = first_segments(segments(outline::shown(self.doc)));
        if busy || olds.len() == 0 {
            None
        } else {
            Some(
                (
                    RequestView::CleanAll { olds },
                    ai::CLEAN_TASK@ + ai::segment_lines(olds, olds.len() as int),
                ),
            )
        }
    }

    pub open spec fn clean_note(self, busy: bool) -> Seq<char> {
        let all = segments(outline::shown(self.doc));
        let olds = first_segments(all);
        if busy {
            busy_note()
        } else if olds.len() == 0 {
            "没有可清理的段落"@
        } else {
            "AI 清理全文中…（"@ + text::decimal(olds.len()) + " 段，可能要一两分钟）"@ + if all.len()
                > olds.len() {
                "（超长截断，"@ + text::decimal((all.len() - olds.len()) as nat) + " 段未送审）"@
            } else {
                Seq::empty()
            }
        }
    }
}

// ---------------------------------------------------------------- proposals

/// A proposal with one more edit: it takes the place of an earlier one for the same node.
pub open spec fn merged(changes: Seq<ChangeView>, c: ChangeView) -> Seq<ChangeView> {
    changes.filter(|x: ChangeView| x.node != c.node).push(c)
}

/// The edits that wait.
pub open spec fn waiting(pending: Option<Seq<ChangeView>>) -> Seq<ChangeView> {
    match pending {
        Some(changes) => changes,
        None => Seq::empty(),
    }
}

/// The edits that wait, with the first `n` of `cs` added.
pub open spec fn merged_all(pending: Seq<ChangeView>, cs: Seq<ChangeView>, n: int) -> Seq<ChangeView>
    decreases n,
{
    if n <= 0 {
        pending
    } else {
        merged(merged_all(pending, cs, n - 1), cs[n - 1])
    }
}

impl Session {
    /// The session after an answer came. An edit is kept for review if it changes something and
    /// the text that it starts from is still there; anything else only shows in the status line.
    pub open spec fn received(self, request: RequestView, result: Result<Seq<char>, Seq<char>>) -> Session {
        match result {
            Err(e) => Session { status: "AI 调用失败: "@ + e, ..self },
            Ok(raw) => match request {
                RequestView::Single { node, old } => {
                    let new = ai::reply_text(raw);
                    if new.len() == 0 {
                        Session { status: "模型返回为空"@, ..self }
                    } else if !self.doc.has_text(node, old) {
                        Session { status: node + " 在 AI 思考期间被改过，该条作废"@, ..self }
                    } else if new == old {
                        Session { status: "AI 对 "@ + node + " 无改动建议"@, ..self }
                    } else {
                        let changes = merged(
                            waiting(self.pending),
                            ChangeView { node, old, new, selected: true },
                        );
                        Session {
                            pending: Some(changes),
                            status: "AI 提案待 review：共 "@ + text::decimal(changes.len())
                                + " 条（在对照面板勾选接受/拒绝）"@,
                            ..self
                        }
                    }
                },
                RequestView::CleanAll { olds } => match ai::clean_outcome(raw, olds) {
                    Err(e) => Session { status: "AI 清理回复解析失败: "@ + e, ..self },
                    Ok((cs, dropped)) => self.proposed(cs, dropped as nat),
                },
            },
        }
    }

    /// The session after the edits of a reply to a request to clean were taken in. Edits of nodes
    /// that were changed meanwhile are left out and counted.
    pub open spec fn proposed(self, cs: Seq<ChangeView>, dropped: nat) -> Session {
        let fresh = still_fresh(self.doc, cs);
        let lost = (cs.len() - fresh.len()) as nat;
        if cs.len() == 0 {
            Session {
                status: "AI 认为全文无需清理（丢弃无效项 "@ + text::decimal(dropped) + " 条）"@,
                ..self
            }
        } else if fresh.len() == 0 {
            Session {
                status: "AI 清理建议全部作废"@ + lost_note(lost) + dropped_note(dropped),
                ..self
            }
        } else {
            let changes = merged_all(waiting(self.pending), fresh, fresh.len() as int);
            Session {
                pending: Some(changes),
                status: "AI 清理建议待 review：共 "@ + text::decimal(changes.len()) + " 条"@
                    + lost_note(lost) + dropped_note(dropped),
                ..self
            }
        }
    }
}

/// The edits whose node still has the text that they start from.
pub open spec fn still_fresh(doc: Doc, cs: Seq<ChangeView>) -> Seq<ChangeView> {
    cs.filter(|c: ChangeView| doc.has_text(c.node, c.old))
}

/// What is said of edits whose node was changed meanwhile.
pub open spec fn lost_note(lost: nat) -> Seq<char> {
    if lost > 0 {
        "；"@ + text::decimal(lost) + " 条在 AI 思考期间被改过，已作废"@
    } else {
        Seq::empty()
    }
}

/// What is said of items of a reply that are no edits.
pub open spec fn dropped_note(dropped: nat) -> Seq<char> {
    if dropped > 0 {
        "；丢弃无效项 "@ + text::decimal(dropped) + " 条"@
    } else {
        Seq::empty()
    }
}

/// An added edit keeps one for each node.
pub proof fn law_one_edit_per_node(changes: Seq<ChangeView>, c: ChangeView)
    requires
        session::one_each(changes),
    ensures
        session::one_each(merged(changes, c)),
        merged(changes, c).last() == c,
{
    let keep = |x: ChangeView| x.node != c.node;
    let kept = changes.filter(keep);
    lemma_kept_distinct(changes, keep);
    changes.lemma_filter_len(keep);
    let all = kept.push(c);
    assert forall|i: int, j: int| 0 <= i < j < all.len() implies (#[trigger] all[i]).node != (
    #[trigger] all[j]).node by {
        broadcast use vstd::seq_lib::group_filter_ensures;

        assert(keep(kept[i]));
    }
}

proof fn lemma_kept_distinct(s: Seq<ChangeView>, keep: spec_fn(ChangeView) -> bool)
    requires
        session::one_each(s),
    ensures
        session::one_each(s.filter(keep)),
        forall|i: int| 0 <= i < s.filter(keep).len() ==> s.contains(#[trigger] s.filter(keep)[i]),
    decreases s.len(),
{
    reveal(Seq::filter);
    if s.len() > 0 {
        let rest = s.drop_last();
        assert(session::one_each(rest));
        lemma_kept_distinct(rest, keep);
        let sub = rest.filter(keep);
        let out = s.filter(keep);
        assert forall|i: int| 0 <= i < out.len() implies s.contains(#[trigger] out[i]) by {
            if i < sub.len() {
                assert(rest.contains(sub[i]));
                let k = choose|k: int| 0 <= k < rest.len() && rest[k] == sub[i];
                assert(s[k] == out[i]);
            } else {
                assert(s[s.len() - 1] == out[i]);
            }
        }
        assert forall|i: int, j: int| 0 <= i < j < out.len() implies (#[trigger] out[i]).node != (
        #[trigger] out[j]).node by {
            if j < sub.len() {
                assert(out[i] == sub[i] && out[j] == sub[j]);
            } else {
                assert(rest.contains(sub[i]));
                let k = choose|k: int| 0 <= k < rest.len() && rest[k] == sub[i];
                assert(s[k].node != s[s.len() - 1].node);
            }
        }
    }
}

proof fn lemma_merged_all(pending: Seq<ChangeView>, cs: Seq<ChangeView>, n: int)
    requires
        session::one_each(pending),
        0 <= n <= cs.len(),
    ensures
        session::one_each(merged_all(pending, cs, n)),
    decreases n,
{
    if n > 0 {
        lemma_merged_all(pending, cs, n - 1);
        law_one_edit_per_node(merged_all(pending, cs, n - 1), cs[n - 1]);
    }
}

impl PolarisApp {
    /// The blocks that a request to clean takes: all that are not opaque, up to a limit; and how
    /// many are left out.
    pub fn clean_targets(&self) -> (r: (Vec<(NodeId, String)>, usize))
        requires
            self@.valid(),
        ensures
            ({
                let all = segments(outline::shown(self@.doc));
                &&& ops::seen(r.0@) == first_segments(all)
                &&& r.1 == all.len() - first_segments(all).len()
            }),
    {
        let blocks = document_blocks(&self.model);
        let ghost views = ops::seen(blocks@);
        let ghost plain = |b: ShownBlock| !(b.kind is Opaque);
        let ghost pair = |b: ShownBlock| (b.node, b.text);
        let mut all: Vec<(NodeId, String)> = Vec::new();
        let mut left: usize = 0;
        proof {
            reveal(Seq::filter);
            assert(views.take(0) =~= Seq::empty());
            assert(views.take(0).filter(plain) =~= Seq::empty());
            assert(segments(views.take(0)) =~= Seq::empty());
            assert(ops::seen(all@) =~= Seq::empty());
        }
        let mut i: usize = 0;
        while i < blocks.len()
            invariant
                i <= blocks@.len(),
                views == ops::seen(blocks@),
                plain == (|b: ShownBlock| !(b.kind is Opaque)),
                ops::seen(all@) == first_segments(segments(views.take(i as int))),
                left == segments(views.take(i as int)).len() - all@.len(),
                segments(views.take(i as int)).len() <= i,
                all@.len() <= MAX_SEGMENTS,
                left > 0 ==> all@.len() == MAX_SEGMENTS,
            decreases blocks@.len() - i,
        {
            let b = &blocks[i];
            let ghost before = segments(views.take(i as int));
            let ghost had = ops::seen(all@);
            proof {
                reveal(Seq::filter);
                assert(views.take(i + 1).drop_last() =~= views.take(i as int));
                assert(views.take(i + 1).last() == b@);
                let kept = views.take(i as int).filter(plain);
                if plain(b@) {
                    assert(views.take(i + 1).filter(plain) == kept.push(b@));
                    assert(segments(views.take(i + 1)) =~= before.push((b@.node, b@.text)));
                } else {
                    assert(views.take(i + 1).filter(plain) == kept);
                    assert(segments(views.take(i + 1)) == before);
                }
            }
            if b.kind != NodeKind::Opaque {
                if all.len() < MAX_SEGMENTS {
                    all.push((b.node.clone(), b.text.clone()));
                    proof {
                        assert(ops::seen(all@) =~= had.push((b@.node, b@.text)));
                        assert(had == before);
                    }
                } else {
                    left += 1;
                    proof {
                        assert(first_segments(segments(views.take(i + 1))) =~= had);
                    }
                }
            }
            i += 1;
        }
        proof {
            assert(views.take(i as int) =~= views);
        }
        (all, left)
    }

    /// Begins a request to rewrite a node: what to ask, and the prompt. The document is not
    /// touched.
    pub fn start_ai_request(&mut self, busy: bool, node: &NodeId) -> (r: Option<
        (AiRequest, String),
    >)
        ensures
            final(self)@ == (Session {
                status: old(self)@.rewrite_note(busy, node@),
                ..old(self)@
            }),
            match r {
                Some((request, prompt)) => old(self)@.rewrite_request(busy, node@) == Some(
                    (request@, prompt@),
                ),
                None => old(self)@.rewrite_request(busy, node@) is None,
            },
    {
        if busy {
            self.status = "已有一个 AI 请求在路上，等它回来".to_string();
            return None;
        }
        let old = match self.model.get_text(node) {
            Some(t) => t.to_string(),
            None => {
                let mut s = node.0.clone();
                s.append(" 不存在，无法发起 AI 提案");
                self.status = s;
                return None;
            },
        };
        let mut s = "AI 改写中…（".to_string();
        s.append(node.0.as_str());
        s.append("，约十秒）");
        self.status = s;
        let prompt = ai_rewrite_prompt(old.as_str());
        Some((AiRequest::Single { node: node.clone(), old }, prompt))
    }

    /// Begins a request to clean the document.
    pub fn start_ai_clean_all(&mut self, busy: bool) -> (r: Option<(AiRequest, String)>)
        requires
            old(self)@.valid(),
        ensures
            final(self)@ == (Session { status: old(self)@.clean_note(busy), ..old(self)@ }),
            match r {
                Some((request, prompt)) => old(self)@.clean_request(busy) == Some(
                    (request@, prompt@),
                ),
                None => old(self)@.clean_request(busy) is None,
            },
    {
        if busy {
            self.status = "已有一个 AI 请求在路上，等它回来".to_string();
            return None;
        }
        let (olds, left) = self.clean_targets();
        if olds.len() == 0 {
            self.status = "没有可清理的段落".to_string();
            return None;
        }
        let mut s = "AI 清理全文中…（".to_string();
        s.append(count_text(olds.len()).as_str());
        s.append(" 段，可能要一两分钟）");
        let ghost head = s@;
        if left > 0 {
            s.append("（超长截断，");
            s.append(count_text(left).as_str());
            s.append(" 段未送审）");
        }
        proof {
            assert(s@ =~= self@.clean_note(false));
        }
        self.status = s;
        let prompt = ai_clean_prompt(olds.as_slice());
        Some((AiRequest::CleanAll { olds }, prompt))
    }

    /// Takes an edit into the proposal and returns how many edits it has.
    pub fn merge_change(&mut self, change: AiChange) -> (n: usize)
        ensures
            final(self)@ == (Session {
                pending: Some(merged(waiting(old(self)@.pending), change@)),
                ..old(self)@
            }),
            n == merged(waiting(old(self)@.pending), change@).len(),
    {
        let ghost before = self@;
        let ghost keep = |x: ChangeView| x.node != change@.node;
        let ghost view = change@;
        let changes: Vec<AiChange> = match self.pending_ai.take() {
            Some(p) => p.changes,
            None => Vec::new(),
        };
        let ghost all = ops::seen(changes@);
        let mut kept: Vec<AiChange> = Vec::new();
        proof {
            assert(all =~= waiting(before.pending));
            reveal(Seq::filter);
            assert(all.take(0) =~= Seq::empty());
            assert(ops::seen(kept@) =~= all.take(0).filter(keep));
        }
        let mut i: usize = 0;
        while i < changes.len()
            invariant
                i <= changes@.len(),
                all == ops::seen(changes@),
                view == change@,
                keep == (|x: ChangeView| x.node != view.node),
                ops::seen(kept@) == all.take(i as int).filter(keep),
            decreases changes@.len() - i,
        {
            let ghost had = ops::seen(kept@);
            proof {
                reveal(Seq::filter);
                assert(all.take(i + 1).drop_last() =~= all.take(i as int));
                assert(all.take(i + 1).last() == changes@[i as int]@);
            }
            if !same_text(changes[i].node.0.as_str(), change.node.0.as_str()) {
                kept.push(changes[i].clone());
                proof {
                    assert(ops::seen(kept@) =~= had.push(changes@[i as int]@));
                }
            }
            i += 1;
        }
        let ghost had = ops::seen(kept@);
        kept.push(change);
        proof {
            assert(all.take(i as int) =~= all);
            assert(ops::seen(kept@) =~= had.push(view));
            assert(ops::seen(kept@) =~= merged(all, view)) by {
                assert(keep =~= (|x: ChangeView| x.node != view.node));
            }
        }
        let n = kept.len();
        self.pending_ai = Some(AiProposal { changes: kept });
        n
    }

    /// Takes in what came back on a request.
    pub fn receive_ai_result(&mut self, reply: AiReply)
        requires
            old(self)@.valid(),
        ensures
            final(self)@ == old(self)@.received(
                reply.request@,
                match reply.result {
                    Ok(raw) => Ok(raw@),
                    Err(e) => Err(e@),
                },
            ),
            final(self)@.valid(),
    {
        let raw = match reply.result {
            Err(e) => {
                let mut s = "AI 调用失败: ".to_string();
                s.append(e.as_str());
                self.status = s;
                return;
            },
            Ok(raw) => raw,
        };
        match reply.request {
            AiRequest::Single { node, old } => self.receive_rewrite(node, old, raw.as_str()),
            AiRequest::CleanAll { olds } => match parse_clean_reply(raw.as_str(), olds.as_slice()) {
                Err(e) => {
                    let mut s = "AI 清理回复解析失败: ".to_string();
                    s.append(e.as_str());
                    self.status = s;
                },
                Ok((changes, dropped)) => self.propose(changes, dropped),
            },
        }
    }

    /// Takes in a rewritten text.
    fn receive_rewrite(&mut self, node: NodeId, was: String, raw: &str)
        requires
            old(self)@.valid(),
        ensures
            final(self)@ == old(self)@.received(
                RequestView::Single { node: node@, old: was@ },
                Ok(raw@),
            ),
            final(self)@.valid(),
    {
        let ghost before = self@;
        let new = parse_ai_reply(raw);
        if new.as_str().is_empty() {
            self.status = "模型返回为空".to_string();
            return;
        }
        let unchanged = match self.model.get_text(&node) {
            Some(t) => same_text(t, was.as_str()),
            None => false,
        };
        if !unchanged {
            let mut s = node.0.clone();
            s.append(" 在 AI 思考期间被改过，该条作废");
            self.status = s;
            return;
        }
        if same_text(new.as_str(), was.as_str()) {
            let mut s = "AI 对 ".to_string();
            s.append(node.0.as_str());
            s.append(" 无改动建议");
            self.status = s;
            return;
        }
        let change = AiChange { node, old: was, new, selected: true };
        proof {
            law_one_edit_per_node(waiting(before.pending), change@);
        }
        let n = self.merge_change(change);
        let mut s = "AI 提案待 review：共 ".to_string();
        s.append(count_text(n).as_str());
        s.append(" 条（在对照面板勾选接受/拒绝）");
        self.status = s;
    }

    /// The edits whose node still has the text that they start from.
    fn keep_fresh(&self, changes: &Vec<AiChange>) -> (r: Vec<AiChange>)
        ensures
            ops::seen(r@) == still_fresh(self@.doc, ops::seen(changes@)),
    {
        let ghost cs = ops::seen(changes@);
        let ghost keep = |c: ChangeView| self@.doc.has_text(c.node, c.old);
        let mut fresh: Vec<AiChange> = Vec::new();
        proof {
            reveal(Seq::filter);
            assert(ops::seen(fresh@) =~= cs.take(0).filter(keep));
        }
        let mut i: usize = 0;
        while i < changes.len()
            invariant
                i <= changes@.len(),
                cs == ops::seen(changes@),
                keep == (|c: ChangeView| self@.doc.has_text(c.node, c.old)),
                ops::seen(fresh@) == cs.take(i as int).filter(keep),
            decreases changes@.len() - i,
        {
            let ghost had = ops::seen(fresh@);
            proof {
                reveal(Seq::filter);
                assert(cs[i as int] == changes@[i as int]@);
                assert(cs.take(i + 1).drop_last() =~= cs.take(i as int));
            }
            if self.change_valid(&changes[i]) {
                fresh.push(changes[i].clone());
                proof {
                    assert(ops::seen(fresh@) =~= had.push(cs[i as int]));
                }
            }
            i += 1;
        }
        proof {
            assert(cs.take(cs.len() as int) =~= cs);
        }
        fresh
    }

    /// Takes in the edits of a reply to a request to clean. Edits of nodes that were changed
    /// meanwhile are left out.
    pub fn propose(&mut self, changes: Vec<AiChange>, dropped: usize)
        requires
            old(self)@.valid(),
        ensures
            final(self)@ == old(self)@.proposed(ops::seen(changes@), dropped as nat),
            final(self)@.valid(),
    {
        let ghost before = self@;
        let ghost all = ops::seen(changes@);
        if changes.len() == 0 {
            let mut s = "AI 认为全文无需清理（丢弃无效项 ".to_string();
            s.append(count_text(dropped).as_str());
            s.append(" 条）");
            self.status = s;
            return;
        }
        let fresh = self.keep_fresh(&changes);
        let ghost cs = ops::seen(fresh@);
        proof {
            all.lemma_filter_len(|c: ChangeView| before.doc.has_text(c.node, c.old));
        }
        let lost: usize = changes.len() - fresh.len();
        let mut note = String::new();
        if lost > 0 {
            note.append("；");
            note.append(count_text(lost).as_str());
            note.append(" 条在 AI 思考期间被改过，已作废");
        }
        if dropped > 0 {
            note.append("；丢弃无效项 ");
            note.append(count_text(dropped).as_str());
            note.append(" 条");
        }
        proof {
            assert(note@ =~= lost_note(lost as nat) + dropped_note(dropped as nat));
        }
        if fresh.len() == 0 {
            let mut s = "AI 清理建议全部作废".to_string();
            s.append(note.as_str());
            self.status = s;
            proof {
                assert(self@.status =~= before.proposed(all, dropped as nat).status);
            }
            return;
        }
        let mut n: usize = 0;
        let mut i: usize = 0;
        while i < fresh.len()
            invariant
                i <= fresh@.len(),
                cs == ops::seen(fresh@),
                before.valid(),
                self@ == (if i == 0 {
                    before
                } else {
                    Session {
                        pending: Some(merged_all(waiting(before.pending), cs, i as int)),
                        ..before
                    }
                }),
                i > 0 ==> n == merged_all(waiting(before.pending), cs, i as int).len(),
            decreases fresh@.len() - i,
        {
            proof {
                assert(cs[i as int] == fresh@[i as int]@);
            }
            n = self.merge_change(fresh[i].clone());
            i += 1;
        }
        proof {
            lemma_merged_all(waiting(before.pending), cs, cs.len() as int);
        }
        let mut s = "AI 清理建议待 review：共 ".to_string();
        s.append(count_text(n).as_str());
        s.append(" 条");
        s.append(note.as_str());
        self.status = s;
        proof {
            assert(self@.status =~= before.proposed(all, dropped as nat).status);
            assert(self@ =~= before.proposed(all, dropped as nat));
        }
    }

    /// Whether an edit still starts from the text that its node has.
    pub fn change_valid(&self, c: &AiChange) -> (r: bool)
        ensures
            r == self@.doc.has_text(c@.node, c@.old),
    {
        match self.model.get_text(&c.node) {
            Some(t) => same_text(t, c.old.as_str()),
            None => false,
        }
    }

    /// Unticks the edits that no longer start from the text that their node has, and says of each
    /// edit whether it still does.
    pub fn untick_stale(&mut self) -> (r: Vec<bool>)
        ensures
            r@ == waiting(old(self)@.pending).map_values(
                |c: ChangeView| old(self)@.doc.has_text(c.node, c.old),
            ),
            final(self)@ == (Session {
                pending: match old(self)@.pending {
                    Some(changes) => Some(unticked(old(self)@.doc, changes)),
                    None => None,
                },
                ..old(self)@
            }),
            old(self)@.valid() ==> final(self)@.valid(),
    {
        let ghost before = self@;
        let mut marks: Vec<bool> = Vec::new();
        if let Some(mut p) = self.pending_ai.take() {
            let ghost start = ops::seen(p.changes@);
            let n = p.changes.len();
            let mut i: usize = 0;
            while i < n
                invariant
                    i <= n,
                    n == p.changes@.len(),
                    start.len() == n,
                    self@.doc == before.doc,
                    self@ == (Session { pending: None, ..before }),
                    marks@.len() == i,
                    forall|j: int|
                        0 <= j < i ==> #[trigger] marks@[j] == before.doc.has_text(
                            start[j].node,
                            start[j].old,
                        ),
                    forall|j: int|
                        0 <= j < i ==> (#[trigger] p.changes@[j])@ == unticked(before.doc, start)[j],
                    forall|j: int| i <= j < n ==> (#[trigger] p.changes@[j])@ == start[j],
                decreases n - i,
            {
                let fresh = self.change_valid(&p.changes[i]);
                if !fresh {
                    p.changes[i].selected = false;
                }
                marks.push(fresh);
                i += 1;
            }
            proof {
                assert(ops::seen(p.changes@) =~= unticked(before.doc, start));
            }
            self.pending_ai = Some(p);
            proof {
                lemma_unticked_one_each(before.doc, start);
            }
        }
        proof {
            assert(marks@ =~= waiting(before.pending).map_values(
                |c: ChangeView| before.doc.has_text(c.node, c.old),
            ));
        }
        marks
    }

    /// Refuses all edits. The document is not touched.
    pub fn reject_ai(&mut self)
        ensures
            final(self)@ == match old(self)@.pending {
                Some(changes) => Session {
                    pending: None,
                    status: "已拒绝全部 "@ + text::decimal(changes.len()) + " 条 AI 提案，模型未动"@,
                    ..old(self)@
                },
                None => old(self)@,
            },
    {
        if let Some(p) = self.pending_ai.take() {
            let mut s = "已拒绝全部 ".to_string();
            s.append(count_text(p.changes.len()).as_str());
            s.append(" 条 AI 提案，模型未动");
            self.status = s;
        }
    }
}

/// The edits, those unticked that no longer start from the text that their node has.
pub open spec fn unticked(doc: Doc, changes: Seq<ChangeView>) -> Seq<ChangeView> {
    changes.map_values(
        |c: ChangeView|
            ChangeView { selected: c.selected && doc.has_text(c.node, c.old), ..c },
    )
}

proof fn lemma_unticked_one_each(doc: Doc, changes: Seq<ChangeView>)
    ensures
        session::one_each(changes) ==> session::one_each(unticked(doc, changes)),
{
    let after = unticked(doc, changes);
    if session::one_each(changes) {
        assert forall|i: int, j: int| 0 <= i < j < after.len() implies (#[trigger] after[i]).node
            != (#[trigger] after[j]).node by {
            assert(after[i].node == changes[i].node && after[j].node == changes[j].node);
        }
    }
}

// ---------------------------------------------------------------- accepting

/// The whole text of a node.
pub open spec fn whole_text(doc: Doc, node: Seq<char>) -> CharRange {
    CharRange { start: Pos(0), end: Pos(doc.nodes.map[node].text.len() as usize) }
}

/// The edit still starts from the text that its node has, and the node can be edited.
pub open spec fn alive(doc: Doc, c: ChangeView) -> bool {
    doc.has_text(c.node, c.old) && session::editable(doc, c.node)
}

/// The places of the ticked edits among the first `n` that are still alive.
pub open spec fn picks(doc: Doc, changes: Seq<ChangeView>, n: int) -> Seq<int>
    decreases n,
{
    if n <= 0 {
        Seq::empty()
    } else if changes[n - 1].selected && alive(doc, changes[n - 1]) {
        picks(doc, changes, n - 1).push(n - 1)
    } else {
        picks(doc, changes, n - 1)
    }
}

/// How many of the first `n` edits are ticked but no longer alive.
pub open spec fn stale(doc: Doc, changes: Seq<ChangeView>, n: int) -> nat
    decreases n,
{
    if n <= 0 {
        0
    } else if changes[n - 1].selected && !alive(doc, changes[n - 1]) {
        stale(doc, changes, n - 1) + 1
    } else {
        stale(doc, changes, n - 1)
    }
}

/// The patch of edit number `i`.
pub open spec fn ai_patch(doc: Doc, c: ChangeView, i: int, reviewed: bool) -> PatchView {
    PatchView {
        id: "ai-"@ + text::decimal(i as nat),
        source: SourceView::Ai { reviewed },
        target: c.node,
        op: OpView::SetSpan { range: whole_text(doc, c.node), text: c.new },
        depends_on: Seq::empty(),
    }
}

/// The patches of the edits at some places.
pub open spec fn ai_patches(
    doc: Doc,
    changes: Seq<ChangeView>,
    places: Seq<int>,
    reviewed: bool,
) -> Seq<PatchView> {
    Seq::new(places.len(), |j: int| ai_patch(doc, changes[places[j]], places[j], reviewed))
}

impl Session {
    /// The set that accepting commits: the ticked edits that are still alive, reviewed.
    pub open spec fn accepted_set(self) -> Seq<PatchView> {
        let changes = waiting(self.pending);
        ai_patches(self.doc, changes, picks(self.doc, changes, changes.len() as int), true)
    }

    /// The session after the ticked edits were accepted: one commit, so one undo takes them back.
    pub open spec fn accepted(self) -> Session {
        match self.pending {
            None => self,
            Some(changes) => {
                let ps = self.accepted_set();
                let lost = stale(self.doc, changes, changes.len() as int);
                let rest = Session { pending: None, ..self };
                if ps.len() == 0 {
                    Session {
                        status: "没有可提交的 AI 改动（共 "@ + text::decimal(changes.len())
                            + " 条，失效 "@ + text::decimal(lost) + " 条），未提交"@,
                        ..rest
                    }
                } else {
                    rest.after_commit(
                        ps,
                        "已接受 "@ + text::decimal(ps.len()) + " 条 AI 改动（一次撤销可整组回）"@
                            + if lost > 0 {
                            "；"@ + text::decimal(lost) + " 条已失效跳过"@
                        } else {
                            Seq::empty()
                        },
                        "AI 提案提交失败: "@,
                    )
                }
            },
        }
    }
}

proof fn lemma_picks(doc: Doc, changes: Seq<ChangeView>, n: int)
    requires
        0 <= n <= changes.len(),
    ensures
        forall|j: int|
            0 <= j < picks(doc, changes, n).len() ==> 0 <= #[trigger] picks(doc, changes, n)[j] < n
                && changes[picks(doc, changes, n)[j]].selected && alive(
                doc,
                changes[picks(doc, changes, n)[j]],
            ),
        forall|j: int, k: int|
            0 <= j < k < picks(doc, changes, n).len() ==> #[trigger] picks(doc, changes, n)[j]
                < #[trigger] picks(doc, changes, n)[k],
        picks(doc, changes, n).len() <= n,
        forall|i: int|
            0 <= i < n && (#[trigger] changes[i]).selected && alive(doc, changes[i]) ==> picks(
                doc,
                changes,
                n,
            ).contains(i),
    decreases n,
{
    if n > 0 {
        lemma_picks(doc, changes, n - 1);
        let rest = picks(doc, changes, n - 1);
        let all = picks(doc, changes, n);
        assert forall|i: int|
            0 <= i < n && (#[trigger] changes[i]).selected && alive(doc, changes[i]) implies all.contains(
            i,
        ) by {
            if i < n - 1 {
                assert(rest.contains(i));
                let j = choose|j: int| 0 <= j < rest.len() && rest[j] == i;
                assert(all[j] == i);
            } else {
                assert(all[all.len() - 1] == i);
            }
        }
    }
}

/// Every patch of the set replaces the whole text of a node that is there; no node and no id
/// occurs twice; all are reviewed.
pub open spec fn rewrites(doc: Doc, ps: Seq<PatchView>) -> bool {
    &&& forall|i: int|
        0 <= i < ps.len() ==> {
            let p = #[trigger] ps[i];
            &&& doc.nodes.has(p.target)
            &&& p.op matches OpView::SetSpan { range, text }
            &&& range == whole_text(doc, p.target)
            &&& text.len() <= usize::MAX
            &&& p.depends_on.len() == 0
            &&& !p.unreviewed()
        }
    &&& forall|i: int, j: int|
        0 <= i < j < ps.len() ==> (#[trigger] ps[i]).target != (#[trigger] ps[j]).target && ps[i].id
            != ps[j].id
}

/// The node table after the first `n` patches set their texts.
pub open spec fn rewritten(d: Nodes, ps: Seq<PatchView>, n: int) -> Nodes
    decreases n,
{
    if n <= 0 {
        d
    } else {
        let before = rewritten(d, ps, n - 1);
        before.put(
            ps[n - 1].target,
            before.map[ps[n - 1].target].with_text(ps[n - 1].op->SetSpan_text),
        )
    }
}

/// What the first `n` patches leave: targets have their new text, everything else is as before.
proof fn lemma_rewritten(doc: Doc, ps: Seq<PatchView>, n: int, k: Seq<char>)
    requires
        rewrites(doc, ps),
        0 <= n <= ps.len(),
    ensures
        ({
            let d = rewritten(doc.nodes, ps, n);
            &&& d.has(k) <==> doc.nodes.has(k)
            &&& (forall|i: int| 0 <= i < n ==> (#[trigger] ps[i]).target != k) ==> d.map[k]
                == doc.nodes.map[k]
            &&& forall|i: int|
                0 <= i < n && (#[trigger] ps[i]).target == k ==> d.map[k]
                    == doc.nodes.map[k].with_text(ps[i].op->SetSpan_text)
        }),
    decreases n,
{
    if n > 0 {
        lemma_rewritten(doc, ps, n - 1, k);
        let p = ps[n - 1];
        if p.target == k {
            assert forall|i: int| 0 <= i < n - 1 implies (#[trigger] ps[i]).target != k by {
                assert(ps[i].target != ps[n - 1].target);
            }
        }
    }
}

proof fn lemma_rewritten_countable(doc: Doc, ps: Seq<PatchView>, n: int)
    requires
        rewrites(doc, ps),
        0 <= n <= ps.len(),
        tree::countable(doc.nodes.map),
    ensures
        tree::countable(rewritten(doc.nodes, ps, n).map),
{
    let d = rewritten(doc.nodes, ps, n);
    assert forall|k: Seq<char>| #[trigger] d.map.dom().contains(k) implies d.map[k].text.len()
        <= usize::MAX && d.map[k].children.len() <= usize::MAX by {
        lemma_rewritten(doc, ps, n, k);
        assert(doc.nodes.map.dom().contains(k));
        if exists|i: int| 0 <= i < n && (#[trigger] ps[i]).target == k {
            let i = choose|i: int| 0 <= i < n && (#[trigger] ps[i]).target == k;
            assert(d.map[k] == doc.nodes.map[k].with_text(ps[i].op->SetSpan_text));
        }
    }
}

/// Patch number `k` replaces the whole text.
proof fn lemma_rewrite_step(doc: Doc, cur: Doc, ps: Seq<PatchView>, k: int)
    requires
        rewrites(doc, ps),
        0 <= k < ps.len(),
        tree::countable(doc.nodes.map),
        cur.nodes == rewritten(doc.nodes, ps, k),
    ensures
        cur.applied(ps[k].target, ps[k].op) matches Ok((next, _)) && next.nodes == rewritten(
            doc.nodes,
            ps,
            k + 1,
        ) && next.rev == (cur.rev + 1) as u64 && next.root == cur.root && next.toc == cur.toc,
{
    let p = ps[k];
    lemma_rewritten(doc, ps, k, p.target);
    assert forall|i: int| 0 <= i < k implies (#[trigger] ps[i]).target != p.target by {
        assert(ps[i].target != ps[k].target);
    }
    let t = doc.nodes.map[p.target].text;
    assert(t.len() <= usize::MAX) by {
        assert(doc.nodes.map.dom().contains(p.target));
    }
    assert(doc::splice(t, whole_text(doc, p.target), p.op->SetSpan_text)
        =~= p.op->SetSpan_text);
}

proof fn lemma_rewrite_run(
    doc: Doc,
    cur: Doc,
    ps: Seq<PatchView>,
    k: int,
    inverses: Seq<PatchView>,
)
    requires
        rewrites(doc, ps),
        0 <= k <= ps.len(),
        tree::countable(doc.nodes.map),
        cur.nodes == rewritten(doc.nodes, ps, k),
    ensures
        laws::stays_countable(cur, ps, k),
        commit::run_from::<ProseModel>(cur, ps, k, inverses) matches Run::Done {
            state,
            inverses: all,
        } && state.nodes == rewritten(doc.nodes, ps, ps.len() as int) && state.root == cur.root
            && state.toc == cur.toc,
    decreases ps.len() - k,
{
    if k < ps.len() {
        lemma_rewrite_step(doc, cur, ps, k);
        lemma_rewritten_countable(doc, ps, k + 1);
        let (next, op) = cur.applied(ps[k].target, ps[k].op)->Ok_0;
        lemma_rewrite_run(
            doc,
            next,
            ps,
            k + 1,
            inverses.push(commit::inverse_patch(ps[k], op)),
        );
    }
}

/// A set of rewrites commits, in the order in which it stands.
pub proof fn lemma_rewrites_commit(doc: Doc, ps: Seq<PatchView>)
    requires
        rewrites(doc, ps),
        tree::countable(doc.nodes.map),
    ensures
        patchset::topo(ps) is Ok,
        commit::ordered(ps) == ps,
        laws::stays_countable(doc, ps, 0),
        commit::commit_outcome::<ProseModel>(doc, ps).1 is Ok,
        ({
            let next = commit::commit_outcome::<ProseModel>(doc, ps).0;
            &&& next.nodes == rewritten(doc.nodes, ps, ps.len() as int)
            &&& next.root == doc.root
            &&& next.toc == doc.toc
        }),
{
    patchset::law_order_without_dependencies_is_input_order(ps);
    assert(commit::ordered(ps) =~= ps);
    lemma_rewrite_run(doc, doc, ps, 0, Seq::empty());
    assert(commit::all_reviewed(ps));
}

/// The accepted set is one of rewrites.
pub proof fn lemma_accepted_rewrites(s: Session)
    requires
        s.valid(),
        forall|i: int|
            0 <= i < waiting(s.pending).len() ==> (#[trigger] waiting(s.pending)[i]).new.len()
                <= usize::MAX,
    ensures
        rewrites(s.doc, s.accepted_set()),
        s.accepted_set().len() <= waiting(s.pending).len(),
{
    let changes = waiting(s.pending);
    let n = changes.len() as int;
    let places = picks(s.doc, changes, n);
    let ps = s.accepted_set();
    lemma_picks(s.doc, changes, n);
    assert forall|i: int, j: int| 0 <= i < j < ps.len() implies (#[trigger] ps[i]).target != (
    #[trigger] ps[j]).target && ps[i].id != ps[j].id by {
        assert(places[i] < places[j]);
        assert(changes[places[i]].node != changes[places[j]].node);
        if ps[i].id == ps[j].id {
            let a = text::decimal(places[i] as nat);
            let b = text::decimal(places[j] as nat);
            let p = "ai-"@;
            assert((p + a).skip(p.len() as int) =~= a);
            assert((p + b).skip(p.len() as int) =~= b);
            text::law_decimal_is_injective(places[i] as nat, places[j] as nat);
        }
    }
    assert forall|i: int| 0 <= i < ps.len() implies {
        let p = #[trigger] ps[i];
        &&& s.doc.nodes.has(p.target)
        &&& p.op matches OpView::SetSpan { range, text }
        &&& range == whole_text(s.doc, p.target)
        &&& text.len() <= usize::MAX
        &&& p.depends_on.len() == 0
        &&& !p.unreviewed()
    } by {
        assert(alive(s.doc, changes[places[i]]));
    }
}

/// The edit is ticked, its node still has the text that it starts from, and there is a text that
/// can be edited.
pub open spec fn takes_effect(doc: Doc, c: ChangeView) -> bool {
    &&& c.selected
    &&& doc.has_text(c.node, c.old)
    &&& c.old.len() > 0
    &&& !(doc.nodes.map[c.node].kind is Opaque)
}

/// Some edit of the list takes effect.
pub open spec fn some_effect(doc: Doc, changes: Seq<ChangeView>) -> bool {
    exists|i: int| 0 <= i < changes.len() && takes_effect(doc, #[trigger] changes[i])
}

/// In a tree every node can be edited where it has text that is not opaque.
proof fn lemma_takes_effect(doc: Doc, c: ChangeView)
    requires
        doc.sound(),
    ensures
        takes_effect(doc, c) <==> c.selected && alive(doc, c),
{
    if doc.has_text(c.node, c.old) {
        outline::lemma_preorder_is_complete(doc, c.node);
    }
}

proof fn lemma_some_effect(s: Session)
    requires
        s.valid(),
    ensures
        some_effect(s.doc, waiting(s.pending)) <==> s.accepted_set().len() > 0,
{
    let changes = waiting(s.pending);
    let n = changes.len() as int;
    let places = picks(s.doc, changes, n);
    lemma_picks(s.doc, changes, n);
    if some_effect(s.doc, changes) {
        let i = choose|i: int| 0 <= i < n && takes_effect(s.doc, #[trigger] changes[i]);
        lemma_takes_effect(s.doc, changes[i]);
        assert(places.contains(i));
    }
    if s.accepted_set().len() > 0 {
        let i = places[0];
        lemma_takes_effect(s.doc, changes[i]);
        assert(takes_effect(s.doc, changes[i]));
    }
}

/// Accepting does what was ticked and nothing else: each edit that takes effect gives its node the
/// new text, its kind and children stay, every other node stays as it is, and the undo stack grows
/// by one entry if some edit took effect and by none otherwise.
pub proof fn law_accept_does_what_was_ticked(s: Session, node: Seq<char>)
    requires
        s.valid(),
        s.room(2 * waiting(s.pending).len() as int),
        forall|i: int|
            0 <= i < waiting(s.pending).len() ==> (#[trigger] waiting(s.pending)[i]).new.len()
                <= usize::MAX,
    ensures
        s.accepted().pending is None,
        s.accepted().doc.nodes.has(node) <==> s.doc.nodes.has(node),
        s.doc.nodes.has(node) ==> {
            let changes = waiting(s.pending);
            let was = s.doc.nodes.map[node];
            let now = s.accepted().doc.nodes.map[node];
            &&& forall|i: int|
                0 <= i < changes.len() && (#[trigger] changes[i]).node == node && takes_effect(
                    s.doc,
                    changes[i],
                ) ==> now == was.with_text(changes[i].new)
            &&& (forall|i: int|
                0 <= i < changes.len() && (#[trigger] changes[i]).node == node ==> !takes_effect(
                    s.doc,
                    changes[i],
                )) ==> now == was
        },
        s.accepted().undo.len() == s.undo.len() + if some_effect(s.doc, waiting(s.pending)) {
            1int
        } else {
            0int
        },
{
    let changes = waiting(s.pending);
    let n = changes.len() as int;
    let places = picks(s.doc, changes, n);
    let ps = s.accepted_set();
    lemma_picks(s.doc, changes, n);
    lemma_accepted_rewrites(s);
    lemma_rewrites_commit(s.doc, ps);
    lemma_some_effect(s);
    lemma_rewritten(s.doc, ps, ps.len() as int, node);
    if s.doc.nodes.has(node) {
        assert forall|i: int|
            0 <= i < n && (#[trigger] changes[i]).node == node && takes_effect(
                s.doc,
                changes[i],
            ) implies s.accepted().doc.nodes.map[node] == s.doc.nodes.map[node].with_text(
            changes[i].new,
        ) by {
            lemma_takes_effect(s.doc, changes[i]);
            assert(places.contains(i));
            let j = choose|j: int| 0 <= j < places.len() && places[j] == i;
            assert(ps[j].target == node);
        }
        if forall|i: int|
            0 <= i < n && (#[trigger] changes[i]).node == node ==> !takes_effect(
                s.doc,
                changes[i],
            ) {
            assert forall|j: int| 0 <= j < ps.len() implies (#[trigger] ps[j]).target != node by {
                lemma_takes_effect(s.doc, changes[places[j]]);
                assert(ps[j].target == changes[places[j]].node);
            }
        }
    }
}

/// A reply never touches the document or the undo stack, whatever it holds.
pub proof fn law_replies_touch_nothing(
    s: Session,
    request: RequestView,
    result: Result<Seq<char>, Seq<char>>,
)
    ensures
        s.received(request, result).doc == s.doc,
        s.received(request, result).undo == s.undo,
        s.received(request, result).blocks == s.blocks,
{
}

proof fn lemma_merged_from(pending: Seq<ChangeView>, cs: Seq<ChangeView>, n: int, i: int)
    requires
        0 <= n <= cs.len(),
        0 <= i < merged_all(pending, cs, n).len(),
    ensures
        pending.contains(merged_all(pending, cs, n)[i]) || cs.contains(merged_all(pending, cs, n)[i]),
    decreases n,
{
    if n > 0 {
        let rest = merged_all(pending, cs, n - 1);
        let c = cs[n - 1];
        let keep = |x: ChangeView| x.node != c.node;
        let kept = rest.filter(keep);
        let all = merged_all(pending, cs, n);
        if i < kept.len() {
            rest.lemma_filter_contains_rev(keep, kept[i]);
            let k = choose|k: int| 0 <= k < rest.len() && rest[k] == kept[i];
            lemma_merged_from(pending, cs, n - 1, k);
        } else {
            assert(all[i] == c);
            assert(cs.contains(c));
        }
    }
}

/// No reply proposes an edit of a paragraph that was changed meanwhile: every edit that waits for
/// review waited before, or its node has the very text that the edit starts from.
pub proof fn law_stale_replies_propose_nothing(
    s: Session,
    request: RequestView,
    result: Result<Seq<char>, Seq<char>>,
    i: int,
)
    requires
        0 <= i < waiting(s.received(request, result).pending).len(),
    ensures
        ({
            let c = waiting(s.received(request, result).pending)[i];
            waiting(s.pending).contains(c) || s.doc.has_text(c.node, c.old)
        }),
{
    let pending = waiting(s.pending);
    let after = waiting(s.received(request, result).pending);
    if let Ok(raw) = result {
        match request {
            RequestView::Single { node, old } => {
                let c = ChangeView { node, old, new: ai::reply_text(raw), selected: true };
                let one = seq![c];
                assert(merged_all(pending, one, 0) == pending);
                assert(merged_all(pending, one, 1) == merged(pending, c));
                if after == merged(pending, c) && s.doc.has_text(node, old) {
                    lemma_merged_from(pending, one, 1, i);
                } else {
                    assert(pending.contains(after[i]));
                }
            },
            RequestView::CleanAll { olds } => {
                if let Ok((cs, dropped)) = ai::clean_outcome(raw, olds) {
                    let fresh = still_fresh(s.doc, cs);
                    if cs.len() > 0 && fresh.len() > 0 {
                        lemma_merged_from(pending, fresh, fresh.len() as int, i);
                        if fresh.contains(after[i]) {
                            broadcast use vstd::seq_lib::group_filter_ensures;

                            let k = choose|k: int| 0 <= k < fresh.len() && fresh[k] == after[i];
                            assert(s.doc.has_text(fresh[k].node, fresh[k].old));
                        }
                    } else {
                        assert(pending.contains(after[i]));
                    }
                } else {
                    assert(pending.contains(after[i]));
                }
            },
        }
    } else {
        assert(pending.contains(after[i]));
    }
}

/// One undo takes all accepted edits back: the whole document has its earlier content.
pub proof fn law_accepted_edits_are_one_undo_step(s: Session)
    requires
        s.valid(),
        s.room(2 * s.accepted_set().len() as int),
        forall|i: int|
            0 <= i < waiting(s.pending).len() ==> (#[trigger] waiting(s.pending)[i]).new.len()
                <= usize::MAX,
        some_effect(s.doc, waiting(s.pending)),
        s.accepted().room(s.accepted_set().len() as int),
    ensures
        s.accepted().undo.len() == s.undo.len() + 1,
        s.accepted().undone().doc.same_content(s.doc),
        s.accepted().undone().undo == s.undo,
{
    let ps = s.accepted_set();
    lemma_some_effect(s);
    lemma_accepted_rewrites(s);
    lemma_rewrites_commit(s.doc, ps);
    let rest = Session { pending: None, ..s };
    let changes = waiting(s.pending);
    let lost = stale(s.doc, changes, changes.len() as int);
    let done = "已接受 "@ + text::decimal(ps.len()) + " 条 AI 改动（一次撤销可整组回）"@ + if lost > 0 {
        "；"@ + text::decimal(lost) + " 条已失效跳过"@
    } else {
        Seq::empty()
    };
    assert(s.pending is Some) by {
        if s.pending is None {
            assert(picks(s.doc, changes, 0).len() == 0);
        }
    }
    session::law_undo_takes_back_the_last_commit(rest, ps, done, "AI 提案提交失败: "@);
}

impl PolarisApp {
    /// Accepts the ticked edits. Those whose text was changed meanwhile are left out; the others
    /// are committed as one set.
    pub fn accept_ai(&mut self)
        requires
            old(self)@.valid(),
            old(self)@.room(2 * waiting(old(self)@.pending).len() as int),
        ensures
            final(self)@ == old(self)@.accepted(),
            final(self)@.valid(),
    {
        let ghost before = self@;
        let changes: Vec<AiChange> = match self.pending_ai.take() {
            Some(p) => p.changes,
            None => return,
        };
        let ghost all = ops::seen(changes@);
        let ghost doc = before.doc;
        let ghost m = doc.nodes.map;
        let ghost ids = doc::preorder(m, doc.root);
        proof {
            assert(all =~= waiting(before.pending));
        }
        let rendered = render_html(&self.model);
        let source_map = rendered.source_map;
        let mut patches: Vec<Patch> = Vec::new();
        let mut lost: usize = 0;
        proof {
            assert(ops::seen(patches@) =~= ai_patches(doc, all, picks(doc, all, 0), false));
        }
        let mut i: usize = 0;
        while i < changes.len()
            invariant
                i <= changes@.len(),
                all == ops::seen(changes@),
                self.model@ == doc,
                doc.sound(),
                m == doc.nodes.map,
                ids == doc::preorder(m, doc.root),
                source_map@ == render::spans_of(m, ids),
                ops::seen(patches@) == ai_patches(doc, all, picks(doc, all, i as int), false),
                lost == stale(doc, all, i as int),
                lost <= i,
                forall|j: int| 0 <= j < i ==> (#[trigger] all[j]).new.len() <= usize::MAX,
            decreases changes@.len() - i,
        {
            let c = &changes[i];
            let ghost had = ops::seen(patches@);
            let ghost places = picks(doc, all, i as int);
            proof {
                assert(all[i as int] == c@);
            }
            let _ = measure(c.new.as_str());
            if c.selected {
                let unchanged = match self.model.get_text(&c.node) {
                    Some(t) => same_text(t, c.old.as_str()),
                    None => false,
                };
                proof {
                    render::law_editable_nodes_have_spans(m, ids, c@.node);
                }
                let found = if unchanged {
                    source_map.span_for(&c.node)
                } else {
                    None
                };
                match found {
                    Some(span) => {
                        proof {
                            let k = choose|k: int|
                                #[trigger] render::first_span(source_map@, c@.node, k) && span@
                                    == source_map@[k];
                            assert(source_map@[k].node == c@.node);
                            render::law_spans_cover_whole_texts(m, ids, k);
                            assert(alive(doc, c@));
                        }
                        let mut name = "ai-".to_string();
                        name.append(count_text(i).as_str());
                        let p = Patch::ai(
                            name.as_str(),
                            Target::Node(c.node.clone()),
                            Op::SetSpan { range: span.range, text: c.new.clone() },
                        );
                        let ghost view = p@;
                        patches.push(p);
                        proof {
                            assert(view == ai_patch(doc, c@, i as int, false));
                            assert(ops::seen(patches@) =~= had.push(view));
                            assert(ai_patches(doc, all, places.push(i as int), false) =~= had.push(
                                view,
                            ));
                        }
                    },
                    None => {
                        proof {
                            assert(!alive(doc, c@));
                        }
                        lost += 1;
                    },
                }
            }
            i += 1;
        }
        let ghost places = picks(doc, all, all.len() as int);
        proof {
            lemma_accepted_rewrites(before);
        }
        if patches.len() == 0 {
            let mut s = "没有可提交的 AI 改动（共 ".to_string();
            s.append(count_text(changes.len()).as_str());
            s.append(" 条，失效 ");
            s.append(count_text(lost).as_str());
            s.append(" 条），未提交");
            self.status = s;
            return;
        }
        let mut done = "已接受 ".to_string();
        done.append(count_text(patches.len()).as_str());
        done.append(" 条 AI 改动（一次撤销可整组回）");
        let ghost head = done@;
        if lost > 0 {
            done.append("；");
            done.append(count_text(lost).as_str());
            done.append(" 条已失效跳过");
        }
        proof {
            assert(done@ =~= head + if lost > 0 {
                "；"@ + text::decimal(lost as nat) + " 条已失效跳过"@
            } else {
                Seq::empty()
            });
        }
        let ghost drafts = ops::seen(patches@);
        let set = PatchSet::new(patches).approve_ai();
        proof {
            assert(set@ =~= before.accepted_set()) by {
                assert forall|j: int| 0 <= j < drafts.len() implies #[trigger] set@[j]
                    == before.accepted_set()[j] by {
                    assert(set@[j] == drafts[j].reviewed());
                }
            }
            lemma_rewrites_commit(doc, set@);
        }
        self.commit_set(&set, done, "AI 提案提交失败: ");
    }
}

} // verus!
