//! Saving: what has changed since the document was loaded, and how it is written back.
use crate::doc;
use crate::doc::{Doc, NodeView};
use crate::docx;
use crate::docx::BlockView;
use crate::office::{DocxOp, DocxOpView};
use crate::ops;
use crate::outline;
use crate::outline::{block_texts, document_blocks, same_texts, ShownBlock, ViewBlock};
use crate::session;
use crate::session::{PolarisApp, Session};
use crate::text;
use crate::text::{count_text, same_text, text_begins};
use crate::textmap;
use crate::textmap::{Dict, TextMap};
use vstd::prelude::*;
use vstd::string::*;

verus! {

// ---------------------------------------------------------------- what to write

/// The path of the paragraph with an identity.
pub open spec fn para_path(id: Seq<char>) -> Seq<char> {
    "/body/p[@paraId="@ + id + "]"@
}

/// The block is of a loaded node, and its text is not the one that was loaded.
pub open spec fn is_changed(b: ShownBlock, original: Dict<Seq<char>>) -> bool {
    original.has(b.node) && original.map[b.node] != b.text
}

/// The ops for the changed texts among the first `n` blocks that have an identity.
pub open spec fn set_ops(
    blocks: Seq<ShownBlock>,
    original: Dict<Seq<char>>,
    para: Dict<Seq<char>>,
    n: int,
) -> Seq<DocxOpView>
    decreases n,
{
    if n <= 0 {
        Seq::empty()
    } else {
        let rest = set_ops(blocks, original, para, n - 1);
        let b = blocks[n - 1];
        if is_changed(b, original) && para.has(b.node) {
            rest.push(
                DocxOpView::SetText {
                    path: para_path(para.map[b.node]),
                    find: original.map[b.node],
                    replace: b.text,
                },
            )
        } else {
            rest
        }
    }
}

/// How many of the first `n` blocks are changed and have no identity.
pub open spec fn set_skips(
    blocks: Seq<ShownBlock>,
    original: Dict<Seq<char>>,
    para: Dict<Seq<char>>,
    n: int,
) -> nat
    decreases n,
{
    if n <= 0 {
        0
    } else {
        set_skips(blocks, original, para, n - 1) + if is_changed(blocks[n - 1], original)
            && !para.has(blocks[n - 1].node) {
            1nat
        } else {
            0nat
        }
    }
}

/// A block of this node is on show.
pub open spec fn on_show(blocks: Seq<ShownBlock>, node: Seq<char>) -> bool {
    exists|i: int| 0 <= i < blocks.len() && (#[trigger] blocks[i]).node == node
}

/// The ops for the nodes among the first `n` loaded ones that are gone and have an identity.
pub open spec fn remove_ops(
    loaded: Seq<Seq<char>>,
    blocks: Seq<ShownBlock>,
    para: Dict<Seq<char>>,
    n: int,
) -> Seq<DocxOpView>
    decreases n,
{
    if n <= 0 {
        Seq::empty()
    } else {
        let rest = remove_ops(loaded, blocks, para, n - 1);
        let node = loaded[n - 1];
        if !on_show(blocks, node) && para.has(node) {
            rest.push(DocxOpView::Remove { path: para_path(para.map[node]) })
        } else {
            rest
        }
    }
}

/// How many of the first `n` loaded nodes are gone and have no identity.
pub open spec fn remove_skips(
    loaded: Seq<Seq<char>>,
    blocks: Seq<ShownBlock>,
    para: Dict<Seq<char>>,
    n: int,
) -> nat
    decreases n,
{
    if n <= 0 {
        0
    } else {
        remove_skips(loaded, blocks, para, n - 1) + if !on_show(blocks, loaded[n - 1])
            && !para.has(loaded[n - 1]) {
            1nat
        } else {
            0nat
        }
    }
}

/// The block was added since the document was loaded.
pub open spec fn is_new(b: ShownBlock) -> bool {
    text::begins(b.node, "new:"@)
}

/// The state of a walk for added blocks: the ops so far, the path of the last block that has one,
/// and the texts added since.
#[verifier::ext_equal]
pub struct AddScan {
    pub ops: Seq<DocxOpView>,
    pub anchor: Option<Seq<char>>,
    pub run: Seq<Seq<char>>,
}

impl AddScan {
    /// The place in the run of the text that op number `i` adds. Behind an anchor each text is
    /// inserted right after it, so the last one goes first; without an anchor each is appended.
    pub open spec fn turn(self, i: int) -> int {
        if self.anchor is Some {
            self.run.len() - 1 - i
        } else {
            i
        }
    }

    /// The ops with those for the texts added since.
    pub open spec fn flushed(self) -> Seq<DocxOpView> {
        self.ops + Seq::new(
            self.run.len(),
            |i: int| DocxOpView::Add { after: self.anchor, text: self.run[self.turn(i)] },
        )
    }

    /// The walk after one more block.
    pub open spec fn step(self, b: ShownBlock, anchors: Dict<Seq<char>>) -> AddScan {
        if is_new(b) {
            if b.text.len() == 0 {
                self
            } else {
                AddScan { run: self.run.push(b.text), ..self }
            }
        } else {
            AddScan {
                ops: self.flushed(),
                anchor: if anchors.has(b.node) {
                    Some(anchors.map[b.node])
                } else {
                    self.anchor
                },
                run: Seq::empty(),
            }
        }
    }
}

/// The walk after the first `n` blocks.
pub open spec fn add_scan(blocks: Seq<ShownBlock>, anchors: Dict<Seq<char>>, n: int) -> AddScan
    decreases n,
{
    if n <= 0 {
        AddScan { ops: Seq::empty(), anchor: None, run: Seq::empty() }
    } else {
        add_scan(blocks, anchors, n - 1).step(blocks[n - 1], anchors)
    }
}

impl Session {
    /// The ops that bring the file up to date: changed texts, then removed paragraphs, then added
    /// ones. Everything is aimed at identities and anchors, never at positions.
    pub open spec fn pending_list(self) -> Seq<DocxOpView> {
        let blocks = outline::shown(self.doc);
        let n = blocks.len() as int;
        let loaded = self.original.order;
        set_ops(blocks, self.original, self.para_map, n) + remove_ops(
            loaded,
            blocks,
            self.para_map,
            loaded.len() as int,
        ) + add_scan(blocks, self.body_anchor, n).flushed()
    }

    /// How many changes cannot be written back for want of an identity.
    pub open spec fn skipped(self) -> nat {
        let blocks = outline::shown(self.doc);
        let loaded = self.original.order;
        set_skips(blocks, self.original, self.para_map, blocks.len() as int) + remove_skips(
            loaded,
            blocks,
            self.para_map,
            loaded.len() as int,
        )
    }

    /// The document differs from what was loaded or last saved.
    pub open spec fn unsaved(self) -> bool {
        outline::texts_of(outline::shown(self.doc)).map != self.original.map
    }
}

/// The loaded nodes among the first `n` that are on show.
spec fn loaded_on_show(
    loaded: Seq<Seq<char>>,
    blocks: Seq<ShownBlock>,
    n: int,
) -> Set<Seq<char>>
    decreases n,
{
    if n <= 0 {
        Set::empty()
    } else if on_show(blocks, loaded[n - 1]) {
        loaded_on_show(loaded, blocks, n - 1).insert(loaded[n - 1])
    } else {
        loaded_on_show(loaded, blocks, n - 1)
    }
}

/// A loaded node is on show or gone, not both.
proof fn lemma_removes_counted(
    loaded: Seq<Seq<char>>,
    blocks: Seq<ShownBlock>,
    para: Dict<Seq<char>>,
    n: int,
)
    requires
        0 <= n <= loaded.len(),
    ensures
        loaded_on_show(loaded, blocks, n).finite(),
        loaded_on_show(loaded, blocks, n).len() + remove_skips(loaded, blocks, para, n) <= n,
        forall|i: int|
            0 <= i < n && on_show(blocks, #[trigger] loaded[i]) ==> loaded_on_show(
                loaded,
                blocks,
                n,
            ).contains(loaded[i]),
    decreases n,
{
    if n > 0 {
        lemma_removes_counted(loaded, blocks, para, n - 1);
    }
}

/// The nodes of the first `n` blocks that are changed.
spec fn changed_nodes(
    blocks: Seq<ShownBlock>,
    original: Dict<Seq<char>>,
    n: int,
) -> Set<Seq<char>>
    decreases n,
{
    if n <= 0 {
        Set::empty()
    } else if is_changed(blocks[n - 1], original) {
        changed_nodes(blocks, original, n - 1).insert(blocks[n - 1].node)
    } else {
        changed_nodes(blocks, original, n - 1)
    }
}

proof fn lemma_sets_counted(
    blocks: Seq<ShownBlock>,
    original: Dict<Seq<char>>,
    para: Dict<Seq<char>>,
    n: int,
)
    requires
        0 <= n <= blocks.len(),
        forall|i: int, j: int|
            0 <= i < j < blocks.len() ==> (#[trigger] blocks[i]).node != (#[trigger] blocks[j]).node,
    ensures
        changed_nodes(blocks, original, n).finite(),
        set_skips(blocks, original, para, n) <= changed_nodes(blocks, original, n).len(),
        forall|k: Seq<char>| #[trigger]
            changed_nodes(blocks, original, n).contains(k) ==> original.has(k) && exists|i: int|
                0 <= i < n && (#[trigger] blocks[i]).node == k,
    decreases n,
{
    if n > 0 {
        lemma_sets_counted(blocks, original, para, n - 1);
        let rest = changed_nodes(blocks, original, n - 1);
        if rest.contains(blocks[n - 1].node) {
            let i = choose|i: int|
                0 <= i < n - 1 && (#[trigger] blocks[i]).node == blocks[n - 1].node;
        }
        assert forall|k: Seq<char>| #[trigger]
            changed_nodes(blocks, original, n).contains(k) implies original.has(k) && exists|i: int|
            0 <= i < n && (#[trigger] blocks[i]).node == k by {
            if rest.contains(k) {
                let i = choose|i: int| 0 <= i < n - 1 && (#[trigger] blocks[i]).node == k;
                assert(blocks[i].node == k);
            } else {
                assert(blocks[n - 1].node == k);
            }
        }
    }
}

/// Each loaded node is skipped at most once.
proof fn lemma_skips_counted(
    blocks: Seq<ShownBlock>,
    original: Dict<Seq<char>>,
    para: Dict<Seq<char>>,
)
    requires
        original.tidy(),
        forall|i: int, j: int|
            0 <= i < j < blocks.len() ==> (#[trigger] blocks[i]).node != (#[trigger] blocks[j]).node,
    ensures
        set_skips(blocks, original, para, blocks.len() as int) + remove_skips(
            original.order,
            blocks,
            para,
            original.order.len() as int,
        ) <= original.order.len(),
{
    let loaded = original.order;
    let n = loaded.len() as int;
    lemma_removes_counted(loaded, blocks, para, n);
    lemma_sets_counted(blocks, original, para, blocks.len() as int);
    let a = changed_nodes(blocks, original, blocks.len() as int);
    let b = loaded_on_show(loaded, blocks, n);
    assert forall|k: Seq<char>| a.contains(k) implies b.contains(k) by {
        assert(loaded.contains(k));
        let i = choose|i: int| 0 <= i < loaded.len() && loaded[i] == k;
        assert(on_show(blocks, loaded[i]));
    }
    vstd::set_lib::lemma_len_subset(a, b);
}

proof fn lemma_remove_skips_grow(
    loaded: Seq<Seq<char>>,
    blocks: Seq<ShownBlock>,
    para: Dict<Seq<char>>,
    a: int,
    b: int,
)
    requires
        a <= b,
    ensures
        remove_skips(loaded, blocks, para, a) <= remove_skips(loaded, blocks, para, b),
    decreases b - a,
{
    if a < b {
        lemma_remove_skips_grow(loaded, blocks, para, a, b - 1);
    }
}

fn path_of(para: &TextMap<String>, node: &str) -> (r: Option<String>)
    ensures
        match r {
            Some(p) => para@.has(node@) && p@ == para_path(para@.map[node@]),
            None => !para@.has(node@),
        },
{
    match para.get(node) {
        Some(id) => {
            let mut p = "/body/p[@paraId=".to_string();
            p.append(id.as_str());
            p.append("]");
            Some(p)
        },
        None => None,
    }
}

fn is_shown(blocks: &Vec<ViewBlock>, node: &str) -> (r: bool)
    ensures
        r == on_show(ops::seen(blocks@), node@),
{
    let ghost views = ops::seen(blocks@);
    let mut i: usize = 0;
    while i < blocks.len()
        invariant
            i <= blocks@.len(),
            views == ops::seen(blocks@),
            forall|j: int| 0 <= j < i ==> (#[trigger] views[j]).node != node@,
        decreases blocks@.len() - i,
    {
        proof {
            assert(views[i as int].node == blocks@[i as int].node@);
        }
        if same_text(blocks[i].node.0.as_str(), node) {
            proof {
                assert(views[i as int].node == node@);
            }
            return true;
        }
        i += 1;
    }
    false
}

/// Adds the ops for a run of added texts: behind an anchor the last text first, else in order.
fn flush(list: &mut Vec<DocxOp>, anchor: &Option<String>, run: &Vec<String>)
    ensures
        ops::seen(final(list)@) == (AddScan {
            ops: ops::seen(old(list)@),
            anchor: docx::opt_text(*anchor),
            run: ops::seen(run@),
        }).flushed(),
{
    let ghost scan = AddScan {
        ops: ops::seen(list@),
        anchor: docx::opt_text(*anchor),
        run: ops::seen(run@),
    };
    let ghost start = ops::seen(list@);
    let n = run.len();
    let mut i: usize = 0;
    while i < n
        invariant
            i <= n,
            n == run@.len(),
            scan.run == ops::seen(run@),
            scan.anchor == docx::opt_text(*anchor),
            scan.ops == start,
            ops::seen(list@) == start + scan.flushed().subrange(
                start.len() as int,
                start.len() + i,
            ),
        decreases n - i,
    {
        let ghost had = ops::seen(list@);
        let (after, k): (Option<String>, usize) = match anchor {
            Some(a) => (Some(a.clone()), n - 1 - i),
            None => (None, i),
        };
        let op = DocxOp::Add { after, text: run[k].clone() };
        let ghost view = op@;
        list.push(op);
        proof {
            assert(k == scan.turn(i as int));
            assert(scan.run[k as int] == run@[k as int]@);
            assert(ops::seen(list@) =~= had.push(view));
            assert(scan.flushed()[start.len() + i] == view);
            assert(ops::seen(list@) =~= start + scan.flushed().subrange(
                start.len() as int,
                start.len() + i + 1,
            ));
        }
        i += 1;
    }
    proof {
        assert(ops::seen(list@) =~= scan.flushed());
    }
}

impl PolarisApp {
    /// The changes to be written back, and how many cannot be.
    pub fn pending_ops(&self) -> (r: (Vec<DocxOp>, usize))
        requires
            self@.valid(),
        ensures
            ops::seen(r.0@) == self@.pending_list(),
            r.1 == self@.skipped(),
    {
        let blocks = document_blocks(&self.model);
        let ghost views = ops::seen(blocks@);
        let ghost original = self.original@;
        let ghost para = self.para_map@;
        let ghost anchors = self.body_anchor@;
        let ghost loaded = original.order;
        let mut list: Vec<DocxOp> = Vec::new();
        let mut skipped: usize = 0;
        proof {
            assert(ops::seen(list@) =~= set_ops(views, original, para, 0));
        }
        let mut i: usize = 0;
        while i < blocks.len()
            invariant
                i <= blocks@.len(),
                views == ops::seen(blocks@),
                original == self.original@,
                para == self.para_map@,
                ops::seen(list@) == set_ops(views, original, para, i as int),
                skipped == set_skips(views, original, para, i as int),
                skipped <= i,
            decreases blocks@.len() - i,
        {
            let b = &blocks[i];
            let ghost had = ops::seen(list@);
            proof {
                assert(views[i as int] == b@);
            }
            if let Some(old) = self.original.get(b.node.0.as_str()) {
                if !same_text(b.text.as_str(), old.as_str()) {
                    match path_of(&self.para_map, b.node.0.as_str()) {
                        Some(path) => {
                            let op = DocxOp::SetText {
                                path,
                                find: old.clone(),
                                replace: b.text.clone(),
                            };
                            let ghost view = op@;
                            list.push(op);
                            proof {
                                assert(ops::seen(list@) =~= had.push(view));
                            }
                        },
                        None => {
                            skipped += 1;
                        },
                    }
                }
            }
            i += 1;
        }
        let ghost sets = ops::seen(list@);
        let ghost first = skipped;
        let total = self.original.entries.len();
        let mut k: usize = 0;
        proof {
            assert(loaded.len() == total);
            assert(sets + remove_ops(loaded, views, para, 0) =~= sets);
            outline::law_each_node_shows_once(self.model@);
            textmap::lemma_dict_tidy(self.original.entries@);
            lemma_skips_counted(views, original, para);
        }
        while k < total
            invariant
                k <= total,
                total == self.original.entries@.len(),
                views == ops::seen(blocks@),
                original == self.original@,
                loaded == original.order,
                loaded.len() == self.original.entries@.len(),
                para == self.para_map@,
                first + remove_skips(loaded, views, para, loaded.len() as int) <= usize::MAX,
                ops::seen(list@) == sets + remove_ops(loaded, views, para, k as int),
                skipped == first + remove_skips(loaded, views, para, k as int),
            decreases total - k,
        {
            let node = self.original.entries[k].0.as_str();
            let ghost had = ops::seen(list@);
            let ghost rest = remove_ops(loaded, views, para, k as int);
            proof {
                assert(loaded[k as int] == node@);
                lemma_remove_skips_grow(loaded, views, para, k + 1, loaded.len() as int);
            }
            if !is_shown(&blocks, node) {
                match path_of(&self.para_map, node) {
                    Some(path) => {
                        let op = DocxOp::Remove { path };
                        let ghost view = op@;
                        list.push(op);
                        proof {
                            assert(ops::seen(list@) =~= had.push(view));
                            assert(sets + rest.push(view) =~= (sets + rest).push(view));
                        }
                    },
                    None => {
                        skipped += 1;
                    },
                }
            }
            k += 1;
        }
        let ghost before = ops::seen(list@);
        let mut anchor: Option<String> = None;
        let mut run: Vec<String> = Vec::new();
        let mut adds: Vec<DocxOp> = Vec::new();
        proof {
            assert(ops::seen(run@) =~= Seq::empty());
            assert(ops::seen(adds@) =~= Seq::empty());
        }
        let mut j: usize = 0;
        while j < blocks.len()
            invariant
                j <= blocks@.len(),
                views == ops::seen(blocks@),
                anchors == self.body_anchor@,
                (AddScan {
                    ops: ops::seen(adds@),
                    anchor: docx::opt_text(anchor),
                    run: ops::seen(run@),
                }) == add_scan(views, anchors, j as int),
            decreases blocks@.len() - j,
        {
            let b = &blocks[j];
            let ghost texts = ops::seen(run@);
            proof {
                assert(views[j as int] == b@);
            }
            if text_begins(b.node.0.as_str(), "new:") {
                if !b.text.as_str().is_empty() {
                    run.push(b.text.clone());
                    proof {
                        assert(ops::seen(run@) =~= texts.push(b@.text));
                    }
                }
            } else {
                flush(&mut adds, &anchor, &run);
                run = Vec::new();
                proof {
                    assert(ops::seen(run@) =~= Seq::empty());
                }
                if let Some(a) = self.body_anchor.get(b.node.0.as_str()) {
                    anchor = Some(a.clone());
                }
            }
            j += 1;
        }
        flush(&mut adds, &anchor, &run);
        let ghost last = ops::seen(adds@);
        let ghost listed = list@;
        let ghost added = adds@;
        list.append(&mut adds);
        proof {
            assert(ops::seen(list@) =~= ops::seen(listed) + ops::seen(added));
        }
        (list, skipped)
    }

    /// Whether the document differs from what was loaded or last saved. The document counts, not
    /// the blocks on show.
    pub fn has_unsaved_changes(&self) -> (r: bool)
        requires
            self@.valid(),
        ensures
            r == self@.unsaved(),
    {
        let blocks = document_blocks(&self.model);
        let current = block_texts(&blocks);
        !same_texts(&current, &self.original)
    }

    /// Whether to go on and restore a version: with unsaved changes only when the same version is
    /// asked for a second time.
    pub fn approve_restore(&mut self, version: &str) -> (r: bool)
        requires
            old(self)@.valid(),
        ensures
            r == (!old(self)@.unsaved() || old(self)@.confirm_restore == Some(version@)),
            final(self)@ == (if r {
                Session { confirm_restore: None, ..old(self)@ }
            } else {
                Session {
                    confirm_restore: Some(version@),
                    status: "有未保存改动，回版会丢弃它们——再点一次该版本确认。"@,
                    ..old(self)@
                }
            }),
            final(self)@.valid(),
    {
        if self.has_unsaved_changes() {
            let asked = match &self.confirm_restore {
                Some(v) => same_text(v.as_str(), version),
                None => false,
            };
            if !asked {
                self.confirm_restore = Some(version.to_string());
                self.status = "有未保存改动，回版会丢弃它们——再点一次该版本确认。".to_string();
                return false;
            }
        }
        self.confirm_restore = None;
        true
    }
}

// ---------------------------------------------------------------- saving

/// What saving comes to.
pub enum SavePlan {
    /// Nothing is written; this is what to say.
    Nothing(String),
    /// These ops go to this file. If `structural`, the file is to be loaded again afterwards, so
    /// that nodes and paragraphs match; `note` is what to say then.
    Write { file: String, ops: Vec<DocxOp>, structural: bool, note: String },
}

/// What is said of changes that cannot be written back.
pub open spec fn skip_note(skipped: nat) -> Seq<char> {
    if skipped > 0 {
        "；另有 "@ + text::decimal(skipped) + " 处改动无法写回（未结构化块/缺 paraId），已跳过"@
    } else {
        Seq::empty()
    }
}

/// Some op changes more than a text.
pub open spec fn is_structural(list: Seq<DocxOpView>) -> bool {
    exists|i: int| 0 <= i < list.len() && !(#[trigger] list[i] is SetText)
}

fn any_structural(list: &Vec<DocxOp>) -> (r: bool)
    ensures
        r == is_structural(ops::seen(list@)),
{
    let ghost views = ops::seen(list@);
    let mut i: usize = 0;
    while i < list.len()
        invariant
            i <= list@.len(),
            views == ops::seen(list@),
            forall|j: int| 0 <= j < i ==> #[trigger] views[j] is SetText,
        decreases list@.len() - i,
    {
        proof {
            assert(views[i as int] == list@[i as int]@);
        }
        let only_text = match &list[i] {
            DocxOp::SetText { path: _, find: _, replace: _ } => true,
            _ => false,
        };
        if !only_text {
            proof {
                assert(!(views[i as int] is SetText));
            }
            return true;
        }
        i += 1;
    }
    false
}

impl PolarisApp {
    /// Plans a save: to the file that is open, if there is something to write.
    pub fn plan_save(&self) -> (r: Result<SavePlan, String>)
        requires
            self@.valid(),
        ensures
            match r {
                Err(e) => self@.loaded_path is None && e@ == "先「打开 docx」再保存"@,
                Ok(SavePlan::Nothing(s)) => self@.loaded_path is Some && self@.pending_list().len()
                    == 0 && s@ == (if self@.skipped() > 0 {
                    "没有可写回的改动"@ + skip_note(self@.skipped())
                } else {
                    "无改动可保存"@
                }),
                Ok(SavePlan::Write { file, ops, structural, note }) => {
                    &&& self@.loaded_path == Some(file@)
                    &&& ops@.len() > 0
                    &&& ops::seen(ops@) == self@.pending_list()
                    &&& structural == is_structural(self@.pending_list())
                    &&& note@ == "已保存 "@ + text::decimal(ops@.len()) + " 处改动 → "@ + file@
                        + "（旧版已入历史）"@ + skip_note(self@.skipped())
                },
            },
    {
        let file = match &self.loaded_path {
            Some(p) => p.clone(),
            None => return Err("先「打开 docx」再保存".to_string()),
        };
        let (list, skipped) = self.pending_ops();
        let mut warn = String::new();
        if skipped > 0 {
            warn.append("；另有 ");
            warn.append(count_text(skipped).as_str());
            warn.append(" 处改动无法写回（未结构化块/缺 paraId），已跳过");
        }
        proof {
            assert(warn@ =~= skip_note(skipped as nat));
        }
        if list.len() == 0 {
            if skipped > 0 {
                let mut s = "没有可写回的改动".to_string();
                s.append(warn.as_str());
                return Ok(SavePlan::Nothing(s));
            }
            return Ok(SavePlan::Nothing("无改动可保存".to_string()));
        }
        let structural = any_structural(&list);
        let mut note = "已保存 ".to_string();
        note.append(count_text(list.len()).as_str());
        note.append(" 处改动 → ");
        note.append(file.as_str());
        note.append("（旧版已入历史）");
        note.append(warn.as_str());
        Ok(SavePlan::Write { file, ops: list, structural, note })
    }

    /// Notes that the texts on show are what the file holds now.
    pub fn texts_saved(&mut self)
        ensures
            final(self)@ == (Session {
                original: outline::texts_of(old(self)@.blocks),
                ..old(self)@
            }),
    {
        self.original = block_texts(&self.blocks);
    }
}

/// What is said after going back to a version: whether the state before it was kept.
pub fn restore_note(result: Result<bool, String>, when: &str) -> (r: String)
    ensures
        r@ == match result {
            Ok(true) => "已回到 "@ + when@ + " 的版本（回版前状态已留底）"@,
            Ok(false) => "已回到 "@ + when@ + " 的版本（当前状态已在历史中，未重复留底）"@,
            Err(e) => "回版失败: "@ + e@,
        },
{
    match result {
        Ok(kept) => {
            let mut s = "已回到 ".to_string();
            s.append(when);
            if kept {
                s.append(" 的版本（回版前状态已留底）");
            } else {
                s.append(" 的版本（当前状态已在历史中，未重复留底）");
            }
            s
        },
        Err(e) => {
            let mut s = "回版失败: ".to_string();
            s.append(e.as_str());
            s
        },
    }
}

// ---------------------------------------------------------------- times

/// Years that a leap day is added to.
pub open spec fn is_leap(year: int) -> bool {
    year % 4 == 0 && (year % 100 != 0 || year % 400 == 0)
}

/// How many days a month has; January is 1.
pub open spec fn month_len(year: int, month: int) -> int {
    if month == 2 {
        if is_leap(year) {
            29
        } else {
            28
        }
    } else if month == 4 || month == 6 || month == 9 || month == 11 {
        30
    } else {
        31
    }
}

/// Year, month and day of the date `n` days after the first day of a month.
pub open spec fn date_after(year: int, month: int, n: int) -> (int, int, int)
    decreases n,
{
    let len = month_len(year, month);
    if n < len {
        (year, month, n + 1)
    } else if month < 12 {
        date_after(year, month + 1, n - len)
    } else {
        date_after(year + 1, 1, n - len)
    }
}

/// A number in two digits.
pub open spec fn two_digits(n: int) -> Seq<char> {
    seq![text::digit((n / 10 % 10) as nat), text::digit((n % 10) as nat)]
}

/// A year in four digits, with a sign and more digits where four are not enough.
pub open spec fn year_text(year: int) -> Seq<char> {
    let size = if year < 0 {
        -year
    } else {
        year
    };
    let digits = if size <= 9999 {
        two_digits(size / 100) + two_digits(size)
    } else {
        text::decimal(size as nat)
    };
    if year < 0 {
        seq!['-'] + digits
    } else if year <= 9999 {
        digits
    } else {
        seq!['+'] + digits
    }
}

/// Date and time `secs` seconds after the start of 1970, such as `2023-11-14 22:13:20`. Days are
/// counted from the start of the year -262400, which is 96,559,160 days earlier.
pub open spec fn clock_text(secs: int) -> Seq<char> {
    let (year, month, day) = date_after(-262_400, 1, secs / 86_400 + 96_559_160);
    let t = secs % 86_400;
    year_text(year) + seq!['-'] + two_digits(month) + seq!['-'] + two_digits(day) + seq![' ']
        + two_digits(t / 3600) + seq![':'] + two_digits(t / 60 % 60) + seq![':'] + two_digits(
        t % 60,
    )
}

/// The moment, in milliseconds after the start of 1970, that a number of 64 bits stands for: one
/// that is too large for a signed number wraps around.
pub open spec fn moment(millis: u64) -> int {
    if millis <= i64::MAX {
        millis as int
    } else {
        millis - 0x1_0000_0000_0000_0000
    }
}

/// The moment lies in the years from -262143 to 262142, which are those that chrono knows.
pub open spec fn is_known(millis: u64) -> bool {
    -8_334_601_228_800_000 <= moment(millis) <= 8_210_266_876_799_999
}

/// The text is the time at this moment, to the second, on some clock that is less than a day ahead
/// of or behind that of Greenwich.
pub open spec fn tells_time(s: Seq<char>, millis: u64) -> bool {
    exists|secs: int|
        -86_400 < secs - moment(millis) / 1000 < 86_400 && s == #[trigger] clock_text(secs)
}

/// Wraps `chrono::Local` with `timestamp_millis_opt` and `format`: date and time of a moment, to the
/// second, in the time zone of the machine; nothing for a moment beyond the years that chrono
/// knows. Which zone that is, is left open: stated is that its clock differs from that of Greenwich
/// by less than a day, as every offset in chrono does.
#[verifier::external_body]
fn local_time(millis: u64) -> (r: Option<String>)
    ensures
        match r {
            Some(s) => is_known(millis) && tells_time(s@, millis),
            None => !is_known(millis),
        },
{
    match chrono::TimeZone::timestamp_millis_opt(&chrono::Local, millis as i64) {
        chrono::LocalResult::Single(dt) => Some(dt.format("%Y-%m-%d %H:%M:%S").to_string()),
        _ => None,
    }
}

/// The label of a moment: its local time where that is known, else the number.
pub fn time_label(local: Option<String>, millis: u64) -> (r: String)
    ensures
        r@ == match local {
            Some(s) => s@,
            None => text::decimal(millis as nat),
        },
{
    match local {
        Some(s) => s,
        None => text::decimal_text(millis),
    }
}

/// The label of a moment: its local time, or the number of milliseconds where that is out of all
/// range. Which local time it is depends on the time zone of the machine.
pub fn format_millis(millis: u64) -> (r: String)
    ensures
        is_known(millis) ==> tells_time(r@, millis),
        !is_known(millis) ==> r@ == text::decimal(millis as nat),
{
    time_label(local_time(millis), millis)
}

// ---------------------------------------------------------------- laws

proof fn lemma_shown_texts(m: Map<Seq<char>, NodeView>, ids: Seq<Seq<char>>, i: int)
    requires
        0 <= i < outline::blocks_of(m, ids).len(),
    ensures
        ({
            let b = outline::blocks_of(m, ids)[i];
            &&& b.text == m[b.node].text
            &&& b.text.len() > 0
            &&& b.kind == m[b.node].kind
            &&& ids.contains(b.node)
        }),
    decreases ids.len(),
{
    if ids.len() > 0 {
        let rest = outline::blocks_of(m, ids.drop_last());
        if i < rest.len() {
            lemma_shown_texts(m, ids.drop_last(), i);
            let k = choose|k: int|
                0 <= k < ids.drop_last().len() && ids.drop_last()[k] == rest[i].node;
            assert(ids[k] == rest[i].node);
        } else {
            assert(ids[ids.len() - 1] == outline::blocks_of(m, ids)[i].node);
        }
    }
}

/// The texts by node hold exactly the blocks on show.
proof fn lemma_texts_of_shown(doc: Doc, n: int)
    requires
        0 <= n <= outline::shown(doc).len(),
    ensures
        ({
            let blocks = outline::shown(doc);
            let d = outline::texts_by_node(blocks, n);
            &&& forall|i: int|
                0 <= i < n ==> d.has((#[trigger] blocks[i]).node) && d.map[blocks[i].node]
                    == blocks[i].text
            &&& forall|k: Seq<char>| #[trigger]
                d.map.dom().contains(k) ==> on_show(blocks, k) && d.map[k] == doc.nodes.map[k].text
            &&& forall|j: int| 0 <= j < d.order.len() ==> on_show(blocks, #[trigger] d.order[j])
        }),
    decreases n,
{
    let blocks = outline::shown(doc);
    let m = doc.nodes.map;
    let ids = doc::preorder(m, doc.root);
    if n > 0 {
        lemma_texts_of_shown(doc, n - 1);
        let rest = outline::texts_by_node(blocks, n - 1);
        let d = outline::texts_by_node(blocks, n);
        let b = blocks[n - 1];
        lemma_shown_texts(m, ids, n - 1);
        assert(on_show(blocks, b.node)) by {
            assert(blocks[n - 1].node == b.node);
        }
        assert forall|i: int| 0 <= i < n implies d.has((#[trigger] blocks[i]).node)
            && d.map[blocks[i].node] == blocks[i].text by {
            lemma_shown_texts(m, ids, i);
        }
        assert forall|j: int| 0 <= j < d.order.len() implies on_show(
            blocks,
            #[trigger] d.order[j],
        ) by {
            if j < rest.order.len() {
                assert(d.order[j] == rest.order[j]);
            }
        }
    }
}

proof fn lemma_no_ops(s: Session, n: int)
    requires
        s.original == outline::texts_of(outline::shown(s.doc)),
    ensures
        ({
            let blocks = outline::shown(s.doc);
            let loaded = s.original.order;
            &&& n <= blocks.len() ==> set_ops(blocks, s.original, s.para_map, n).len() == 0
                && set_skips(blocks, s.original, s.para_map, n) == 0
            &&& n <= loaded.len() ==> remove_ops(loaded, blocks, s.para_map, n).len() == 0
                && remove_skips(loaded, blocks, s.para_map, n) == 0
        }),
    decreases n,
{
    if n > 0 {
        lemma_no_ops(s, n - 1);
        lemma_texts_of_shown(s.doc, outline::shown(s.doc).len() as int);
    }
}

proof fn lemma_no_adds(blocks: Seq<ShownBlock>, anchors: Dict<Seq<char>>, n: int)
    requires
        0 <= n <= blocks.len(),
        forall|i: int| 0 <= i < blocks.len() ==> !is_new(#[trigger] blocks[i]),
    ensures
        add_scan(blocks, anchors, n).ops.len() == 0,
        add_scan(blocks, anchors, n).run.len() == 0,
    decreases n,
{
    if n > 0 {
        lemma_no_adds(blocks, anchors, n - 1);
    }
}

/// Right after a file was opened there is nothing to save: the document is not changed, and there
/// is no op to write and nothing that cannot be written.
pub proof fn law_nothing_to_save_after_loading(s: Session, blocks: Seq<BlockView>, path: Seq<char>)
    requires
        docx::import_fits(session::new_doc(), blocks.len()),
        docx::blocks_countable(blocks),
    ensures
        !s.loaded(blocks, path).unsaved(),
        s.loaded(blocks, path).pending_list().len() == 0,
        s.loaded(blocks, path).skipped() == 0,
{
    let t = s.loaded(blocks, path);
    let shown = outline::shown(t.doc);
    let m = t.doc.nodes.map;
    let root = t.doc.root;
    session::law_opened_document_holds_the_blocks(blocks);
    lemma_no_ops(t, shown.len() as int);
    lemma_no_ops(t, t.original.order.len() as int);
    let fuel = choose|f: nat| doc::bounded(m, root, f);
    doc::lemma_preorder(m, root, fuel);
    let ids = doc::preorder(m, root);
    assert forall|i: int| 0 <= i < shown.len() implies !is_new(#[trigger] shown[i]) by {
        lemma_shown_texts(m, ids, i);
        let node = shown[i].node;
        let k = choose|k: int| 0 <= k < ids.len() && ids[k] == node;
        outline::lemma_walk_exists(m, root, fuel, k);
        reveal_strlit("new:");
        reveal_strlit("root");
        reveal_strlit("docx:");
        assert("new:"@.len() == 4 && "new:"@[0] == 'n' && "root"@[0] == 'r' && "docx:"@[0] == 'd');
        assert(t.doc.nodes.map.dom().contains(node));
        assert(node == "root"@ || docx::docx_ids(0, blocks.len()).contains(node));
        if docx::docx_ids(0, blocks.len()).contains(node) {
            let all = docx::docx_ids(0, blocks.len());
            let j = choose|j: int| 0 <= j < all.len() && all[j] == node;
            assert(node == docx::docx_id((0 + j) as nat));
            assert(node[0] == 'd');
        }
        if is_new(shown[i]) {
            assert(node.subrange(0, 4)[0] == "new:"@[0]);
            assert(node[0] == 'n');
        }
    }
    lemma_no_adds(shown, t.body_anchor, shown.len() as int);
}

/// What is known of the blocks of a file by the ids of their nodes.
proof fn lemma_by_node(blocks: Seq<BlockView>, n: int)
    requires
        0 <= n <= blocks.len(),
    ensures
        forall|k: Seq<char>| #[trigger]
            session::identities(blocks, n).map.dom().contains(k) ==> exists|i: int|
                0 <= i < n && k == #[trigger] docx::docx_id(i as nat) && blocks[i].identity() is Some,
        forall|i: int|
            0 <= i < n ==> (blocks[i].identity() matches Some(x) ==> session::identities(
                blocks,
                n,
            ).has(#[trigger] docx::docx_id(i as nat)) && session::identities(
                blocks,
                n,
            ).map[docx::docx_id(i as nat)] == x),
        forall|k: Seq<char>| #[trigger]
            session::anchors(blocks, n).map.dom().contains(k) ==> exists|i: int|
                0 <= i < n && k == #[trigger] docx::docx_id(i as nat) && blocks[i].after_path() is Some,
        forall|i: int|
            0 <= i < n ==> (blocks[i].after_path() matches Some(x) ==> session::anchors(
                blocks,
                n,
            ).has(#[trigger] docx::docx_id(i as nat)) && session::anchors(
                blocks,
                n,
            ).map[docx::docx_id(i as nat)] == x),
        forall|k: Seq<char>| #[trigger]
            session::pictures(blocks, n).map.dom().contains(k) ==> exists|i: int|
                0 <= i < n && k == #[trigger] docx::docx_id(i as nat) && blocks[i].picture() is Some,
        forall|i: int|
            0 <= i < n ==> (blocks[i].picture() matches Some(x) ==> session::pictures(
                blocks,
                n,
            ).has(#[trigger] docx::docx_id(i as nat)) && session::pictures(
                blocks,
                n,
            ).map[docx::docx_id(i as nat)] == x),
    decreases n,
{
    if n > 0 {
        lemma_by_node(blocks, n - 1);
        assert forall|i: int| 0 <= i < n - 1 implies #[trigger] docx::docx_id(i as nat)
            != docx::docx_id((n - 1) as nat) by {
            if docx::docx_id(i as nat) == docx::docx_id((n - 1) as nat) {
                docx::lemma_ids_differ(0, i, n - 1);
            }
        }
        let last = docx::docx_id((n - 1) as nat);
        assert forall|k: Seq<char>| #[trigger]
            session::identities(blocks, n).map.dom().contains(k) implies exists|i: int|
            0 <= i < n && k == #[trigger] docx::docx_id(i as nat) && blocks[i].identity() is Some by {
            if session::identities(blocks, n - 1).map.dom().contains(k) {
                let i = choose|i: int|
                    0 <= i < n - 1 && k == #[trigger] docx::docx_id(i as nat)
                        && blocks[i].identity() is Some;
                assert(k == docx::docx_id(i as nat));
            } else {
                assert(k == docx::docx_id((n - 1) as nat));
            }
        }
        assert forall|k: Seq<char>| #[trigger]
            session::anchors(blocks, n).map.dom().contains(k) implies exists|i: int|
            0 <= i < n && k == #[trigger] docx::docx_id(i as nat) && blocks[i].after_path() is Some by {
            if session::anchors(blocks, n - 1).map.dom().contains(k) {
                let i = choose|i: int|
                    0 <= i < n - 1 && k == #[trigger] docx::docx_id(i as nat)
                        && blocks[i].after_path() is Some;
                assert(k == docx::docx_id(i as nat));
            } else {
                assert(k == docx::docx_id((n - 1) as nat));
            }
        }
        assert forall|k: Seq<char>| #[trigger]
            session::pictures(blocks, n).map.dom().contains(k) implies exists|i: int|
            0 <= i < n && k == #[trigger] docx::docx_id(i as nat) && blocks[i].picture() is Some by {
            if session::pictures(blocks, n - 1).map.dom().contains(k) {
                let i = choose|i: int|
                    0 <= i < n - 1 && k == #[trigger] docx::docx_id(i as nat)
                        && blocks[i].picture() is Some;
                assert(k == docx::docx_id(i as nat));
            } else {
                assert(k == docx::docx_id((n - 1) as nat));
            }
        }
    }
}

/// What a session is after a file was opened: the document holds the blocks, one node for each and
/// in order, and nothing else; identities, anchors and pictures are those of the blocks; nothing can
/// be undone, no restore waits for its confirmation, and there is nothing to save.
pub proof fn law_loading_a_file(s: Session, blocks: Seq<BlockView>, path: Seq<char>, k: Seq<char>)
    requires
        docx::import_fits(session::new_doc(), blocks.len()),
        docx::blocks_countable(blocks),
    ensures
        ({
            let t = s.loaded(blocks, path);
            let n = blocks.len() as int;
            &&& t.loaded_path == Some(path)
            &&& t.undo.len() == 0
            &&& t.confirm_restore is None
            &&& t.doc.sound()
            &&& t.doc.nodes.has(k) <==> k == t.doc.root || docx::docx_ids(0, n as nat).contains(k)
            &&& t.doc.nodes.map[t.doc.root].children == docx::docx_ids(0, n as nat)
            &&& forall|i: int|
                0 <= i < n ==> #[trigger] t.doc.nodes.map[docx::docx_id(i as nat)] == docx::block_node(
                    blocks[i],
                )
            &&& t.para_map.has(k) ==> exists|i: int|
                0 <= i < n && k == #[trigger] docx::docx_id(i as nat)
            &&& forall|i: int|
                #![trigger docx::docx_id(i as nat)]
                0 <= i < n ==> {
                    let id = docx::docx_id(i as nat);
                    &&& t.para_map.has(id) <==> blocks[i].identity() is Some
                    &&& t.para_map.has(id) ==> Some(t.para_map.map[id]) == blocks[i].identity()
                    &&& t.body_anchor.has(id) <==> blocks[i].after_path() is Some
                    &&& t.body_anchor.has(id) ==> Some(t.body_anchor.map[id])
                        == blocks[i].after_path()
                    &&& t.image_map.has(id) <==> blocks[i].picture() is Some
                    &&& t.image_map.has(id) ==> Some(t.image_map.map[id]) == blocks[i].picture()
                }
            &&& !t.unsaved()
            &&& t.pending_list().len() == 0
            &&& t.skipped() == 0
        }),
{
    let t = s.loaded(blocks, path);
    let n = blocks.len() as int;
    session::law_opened_document_holds_the_blocks(blocks);
    law_nothing_to_save_after_loading(s, blocks, path);
    lemma_by_node(blocks, n);
    let d = session::new_doc();
    assert(d.nodes.map[d.root].children + docx::docx_ids(0, n as nat) =~= docx::docx_ids(
        0,
        n as nat,
    ));
    assert forall|i: int| 0 <= i < n implies #[trigger] t.doc.nodes.map[docx::docx_id(i as nat)]
        == docx::block_node(blocks[i]) by {
        assert(docx::docx_id((0 + i) as nat) == docx::docx_id(i as nat));
    }
    assert forall|i: int|
        #![trigger docx::docx_id(i as nat)]
        0 <= i < n implies {
        let id = docx::docx_id(i as nat);
        &&& t.para_map.has(id) <==> blocks[i].identity() is Some
        &&& t.para_map.has(id) ==> Some(t.para_map.map[id]) == blocks[i].identity()
        &&& t.body_anchor.has(id) <==> blocks[i].after_path() is Some
        &&& t.body_anchor.has(id) ==> Some(t.body_anchor.map[id]) == blocks[i].after_path()
        &&& t.image_map.has(id) <==> blocks[i].picture() is Some
        &&& t.image_map.has(id) ==> Some(t.image_map.map[id]) == blocks[i].picture()
    } by {
        let id = docx::docx_id(i as nat);
        if t.para_map.has(id) {
            let j = choose|j: int|
                0 <= j < n && id == #[trigger] docx::docx_id(j as nat) && blocks[j].identity() is Some;
            docx::lemma_ids_differ(0, i, j);
        }
        if t.body_anchor.has(id) {
            let j = choose|j: int|
                0 <= j < n && id == #[trigger] docx::docx_id(j as nat)
                    && blocks[j].after_path() is Some;
            docx::lemma_ids_differ(0, i, j);
        }
        if t.image_map.has(id) {
            let j = choose|j: int|
                0 <= j < n && id == #[trigger] docx::docx_id(j as nat) && blocks[j].picture() is Some;
            docx::lemma_ids_differ(0, i, j);
        }
    }
}

proof fn lemma_adds_add(blocks: Seq<ShownBlock>, anchors: Dict<Seq<char>>, n: int)
    ensures
        ({
            let scan = add_scan(blocks, anchors, n);
            &&& forall|i: int| 0 <= i < scan.ops.len() ==> #[trigger] scan.ops[i] is Add
            &&& forall|i: int| 0 <= i < scan.flushed().len() ==> #[trigger] scan.flushed()[i] is Add
        }),
    decreases n,
{
    if n > 0 {
        lemma_adds_add(blocks, anchors, n - 1);
    }
}

/// A save that wrote changed texts only leaves nothing to save, if the blocks on show are those of
/// the document.
pub proof fn law_nothing_to_save_after_saving_texts(s: Session)
    requires
        s.blocks == outline::shown(s.doc),
        !is_structural(s.pending_list()),
    ensures
        ({
            let t = Session { original: outline::texts_of(s.blocks), ..s };
            &&& !t.unsaved()
            &&& t.pending_list().len() == 0
            &&& t.skipped() == 0
        }),
{
    let t = Session { original: outline::texts_of(s.blocks), ..s };
    let n = s.blocks.len() as int;
    lemma_no_ops(t, n);
    lemma_no_ops(t, t.original.order.len() as int);
    let added = add_scan(s.blocks, s.body_anchor, n).flushed();
    lemma_adds_add(s.blocks, s.body_anchor, n);
    if added.len() > 0 {
        let list = s.pending_list();
        assert(list[list.len() - 1] == added[added.len() - 1]);
        assert(list[list.len() - 1] is SetText);
    }
}

/// Whether there is something to save depends on the content of the document: an edit that is
/// undone leaves nothing to save if there was nothing before.
pub proof fn law_undone_edits_leave_nothing_to_save(a: Session, b: Session)
    requires
        a.doc.same_content(b.doc),
        a.original == b.original,
        a.para_map == b.para_map,
        a.body_anchor == b.body_anchor,
    ensures
        a.unsaved() == b.unsaved(),
        a.pending_list() == b.pending_list(),
        a.skipped() == b.skipped(),
{
}

/// The path is that of a paragraph with an identity that some node has.
pub open spec fn by_identity(para: Dict<Seq<char>>, path: Seq<char>) -> bool {
    exists|k: Seq<char>| #[trigger] para.map.dom().contains(k) && path == para_path(para.map[k])
}

/// The op goes to an identity or an anchor of the session.
pub open spec fn well_aimed(s: Session, op: DocxOpView) -> bool {
    match op {
        DocxOpView::SetText { path, find, replace } => by_identity(s.para_map, path),
        DocxOpView::Remove { path } => by_identity(s.para_map, path),
        DocxOpView::Add { after, text } => after matches Some(a) ==> exists|k: Seq<char>|
            #[trigger] s.body_anchor.map.dom().contains(k) && a == s.body_anchor.map[k],
    }
}

proof fn lemma_sets_aimed(s: Session, blocks: Seq<ShownBlock>, n: int)
    requires
        0 <= n <= blocks.len(),
    ensures
        forall|i: int|
            0 <= i < set_ops(blocks, s.original, s.para_map, n).len() ==> well_aimed(
                s,
                #[trigger] set_ops(blocks, s.original, s.para_map, n)[i],
            ),
    decreases n,
{
    if n > 0 {
        lemma_sets_aimed(s, blocks, n - 1);
        let b = blocks[n - 1];
        if is_changed(b, s.original) && s.para_map.has(b.node) {
            assert(by_identity(s.para_map, para_path(s.para_map.map[b.node])));
        }
        let rest = set_ops(blocks, s.original, s.para_map, n - 1);
        let all = set_ops(blocks, s.original, s.para_map, n);
        assert forall|i: int| 0 <= i < all.len() implies well_aimed(s, #[trigger] all[i]) by {
            if i < rest.len() {
                assert(all[i] == rest[i]);
            }
        }
    }
}

proof fn lemma_removes_aimed(s: Session, blocks: Seq<ShownBlock>, n: int)
    requires
        0 <= n <= s.original.order.len(),
    ensures
        forall|i: int|
            0 <= i < remove_ops(s.original.order, blocks, s.para_map, n).len() ==> well_aimed(
                s,
                #[trigger] remove_ops(s.original.order, blocks, s.para_map, n)[i],
            ),
    decreases n,
{
    if n > 0 {
        lemma_removes_aimed(s, blocks, n - 1);
        let node = s.original.order[n - 1];
        if !on_show(blocks, node) && s.para_map.has(node) {
            assert(by_identity(s.para_map, para_path(s.para_map.map[node])));
        }
        let rest = remove_ops(s.original.order, blocks, s.para_map, n - 1);
        let all = remove_ops(s.original.order, blocks, s.para_map, n);
        assert forall|i: int| 0 <= i < all.len() implies well_aimed(s, #[trigger] all[i]) by {
            if i < rest.len() {
                assert(all[i] == rest[i]);
            }
        }
    }
}

proof fn lemma_adds_aimed(s: Session, blocks: Seq<ShownBlock>, n: int)
    requires
        0 <= n <= blocks.len(),
    ensures
        ({
            let scan = add_scan(blocks, s.body_anchor, n);
            &&& forall|i: int| 0 <= i < scan.ops.len() ==> well_aimed(s, #[trigger] scan.ops[i])
            &&& forall|i: int|
                0 <= i < scan.flushed().len() ==> well_aimed(s, #[trigger] scan.flushed()[i])
            &&& scan.anchor matches Some(a) ==> exists|k: Seq<char>|
                #[trigger] s.body_anchor.map.dom().contains(k) && a == s.body_anchor.map[k]
        }),
    decreases n,
{
    if n > 0 {
        lemma_adds_aimed(s, blocks, n - 1);
        let b = blocks[n - 1];
        if !is_new(b) && s.body_anchor.has(b.node) {
            assert(s.body_anchor.map.dom().contains(b.node));
        }
    }
    let scan = add_scan(blocks, s.body_anchor, n);
    assert forall|i: int| 0 <= i < scan.flushed().len() implies well_aimed(
        s,
        #[trigger] scan.flushed()[i],
    ) by {
        if i < scan.ops.len() {
            assert(scan.flushed()[i] == scan.ops[i]);
        }
    }
}

/// Nothing is written by position: every op goes to the identity of a loaded paragraph or to the
/// anchor of a loaded block.
pub proof fn law_ops_are_aimed_at_identities(s: Session, i: int)
    requires
        0 <= i < s.pending_list().len(),
    ensures
        well_aimed(s, s.pending_list()[i]),
{
    let blocks = outline::shown(s.doc);
    let n = blocks.len() as int;
    let loaded = s.original.order;
    lemma_sets_aimed(s, blocks, n);
    lemma_removes_aimed(s, blocks, loaded.len() as int);
    lemma_adds_aimed(s, blocks, n);
    let a = set_ops(blocks, s.original, s.para_map, n);
    let b = remove_ops(loaded, blocks, s.para_map, loaded.len() as int);
    let c = add_scan(blocks, s.body_anchor, n).flushed();
    if i < a.len() {
        assert(s.pending_list()[i] == a[i]);
    } else if i < a.len() + b.len() {
        assert(s.pending_list()[i] == b[i - a.len()]);
    } else {
        assert(s.pending_list()[i] == c[i - a.len() - b.len()]);
    }
}

// ---------------------------------------------------------------- nothing is swallowed

/// The op that writes a changed text.
pub open spec fn text_op(
    b: ShownBlock,
    original: Dict<Seq<char>>,
    para: Dict<Seq<char>>,
) -> DocxOpView {
    DocxOpView::SetText {
        path: para_path(para.map[b.node]),
        find: original.map[b.node],
        replace: b.text,
    }
}

proof fn lemma_set_listed(
    blocks: Seq<ShownBlock>,
    original: Dict<Seq<char>>,
    para: Dict<Seq<char>>,
    n: int,
    i: int,
)
    requires
        0 <= i < n <= blocks.len(),
        is_changed(blocks[i], original),
    ensures
        para.has(blocks[i].node) ==> set_ops(blocks, original, para, n).contains(
            text_op(blocks[i], original, para),
        ),
        !para.has(blocks[i].node) ==> set_skips(blocks, original, para, n) > 0,
    decreases n,
{
    let rest = set_ops(blocks, original, para, n - 1);
    let all = set_ops(blocks, original, para, n);
    let op = text_op(blocks[i], original, para);
    if i < n - 1 {
        lemma_set_listed(blocks, original, para, n - 1, i);
        if para.has(blocks[i].node) {
            let k = choose|k: int| 0 <= k < rest.len() && rest[k] == op;
            assert(all[k] == op);
        }
    } else if para.has(blocks[i].node) {
        assert(all.last() == op);
    }
}

proof fn lemma_remove_listed(
    loaded: Seq<Seq<char>>,
    blocks: Seq<ShownBlock>,
    para: Dict<Seq<char>>,
    n: int,
    i: int,
)
    requires
        0 <= i < n <= loaded.len(),
        !on_show(blocks, loaded[i]),
    ensures
        para.has(loaded[i]) ==> remove_ops(loaded, blocks, para, n).contains(
            DocxOpView::Remove { path: para_path(para.map[loaded[i]]) },
        ),
        !para.has(loaded[i]) ==> remove_skips(loaded, blocks, para, n) > 0,
    decreases n,
{
    let rest = remove_ops(loaded, blocks, para, n - 1);
    let all = remove_ops(loaded, blocks, para, n);
    let op = DocxOpView::Remove { path: para_path(para.map[loaded[i]]) };
    if i < n - 1 {
        lemma_remove_listed(loaded, blocks, para, n - 1, i);
        if para.has(loaded[i]) {
            let k = choose|k: int| 0 <= k < rest.len() && rest[k] == op;
            assert(all[k] == op);
        }
    } else if para.has(loaded[i]) {
        assert(all.last() == op);
    }
}

/// The list adds this text somewhere.
pub open spec fn adds(list: Seq<DocxOpView>, text: Seq<char>) -> bool {
    exists|k: int|
        0 <= k < list.len() && (#[trigger] list[k] matches DocxOpView::Add { after: _, text: t }
            && t == text)
}

proof fn lemma_add_listed(blocks: Seq<ShownBlock>, anchors: Dict<Seq<char>>, n: int, i: int)
    requires
        0 <= i < n <= blocks.len(),
        is_new(blocks[i]),
        blocks[i].text.len() > 0,
    ensures
        ({
            let scan = add_scan(blocks, anchors, n);
            &&& adds(scan.ops, blocks[i].text) || scan.run.contains(blocks[i].text)
            &&& adds(scan.flushed(), blocks[i].text)
        }),
    decreases n,
{
    let scan = add_scan(blocks, anchors, n);
    let text = blocks[i].text;
    if i < n - 1 {
        lemma_add_listed(blocks, anchors, n - 1, i);
        let rest = add_scan(blocks, anchors, n - 1);
        if rest.run.contains(text) && is_new(blocks[n - 1]) {
            let k = choose|k: int| 0 <= k < rest.run.len() && rest.run[k] == text;
            assert(scan.run[k] == text);
        }
    } else {
        assert(scan.run.last() == text);
    }
    if scan.run.contains(text) {
        let k = choose|k: int| 0 <= k < scan.run.len() && scan.run[k] == text;
        let at = scan.ops.len() + scan.turn(k);
        assert(scan.turn(scan.turn(k)) == k);
        assert(scan.flushed()[at] == (DocxOpView::Add { after: scan.anchor, text }));
    } else {
        let k = choose|k: int|
            0 <= k < scan.ops.len() && (#[trigger] scan.ops[k] matches DocxOpView::Add {
                after: _,
                text: t,
            } && t == text);
        assert(scan.flushed()[k] == scan.ops[k]);
    }
}

/// No change is passed over in silence: a changed text, a paragraph that is gone and a paragraph
/// that was added each have their op, or are counted among what cannot be written.
pub proof fn law_no_change_is_swallowed(s: Session, i: int)
    ensures
        ({
            let blocks = outline::shown(s.doc);
            let loaded = s.original.order;
            &&& 0 <= i < blocks.len() && is_changed(blocks[i], s.original) ==> if s.para_map.has(
                blocks[i].node,
            ) {
                s.pending_list().contains(text_op(blocks[i], s.original, s.para_map))
            } else {
                s.skipped() > 0
            }
            &&& 0 <= i < loaded.len() && !on_show(blocks, loaded[i]) ==> if s.para_map.has(
                loaded[i],
            ) {
                s.pending_list().contains(
                    DocxOpView::Remove { path: para_path(s.para_map.map[loaded[i]]) },
                )
            } else {
                s.skipped() > 0
            }
            &&& 0 <= i < blocks.len() && is_new(blocks[i]) ==> adds(
                s.pending_list(),
                blocks[i].text,
            )
        }),
{
    let blocks = outline::shown(s.doc);
    let n = blocks.len() as int;
    let loaded = s.original.order;
    let list = s.pending_list();
    let sets = set_ops(blocks, s.original, s.para_map, n);
    let removes = remove_ops(loaded, blocks, s.para_map, loaded.len() as int);
    let added = add_scan(blocks, s.body_anchor, n).flushed();
    if 0 <= i < n && is_changed(blocks[i], s.original) {
        lemma_set_listed(blocks, s.original, s.para_map, n, i);
        if s.para_map.has(blocks[i].node) {
            let op = text_op(blocks[i], s.original, s.para_map);
            let k = choose|k: int| 0 <= k < sets.len() && sets[k] == op;
            assert(list[k] == op);
        }
    }
    if 0 <= i < loaded.len() && !on_show(blocks, loaded[i]) {
        lemma_remove_listed(loaded, blocks, s.para_map, loaded.len() as int, i);
        if s.para_map.has(loaded[i]) {
            let op = DocxOpView::Remove { path: para_path(s.para_map.map[loaded[i]]) };
            let k = choose|k: int| 0 <= k < removes.len() && removes[k] == op;
            assert(list[sets.len() + k] == op);
        }
    }
    if 0 <= i < n && is_new(blocks[i]) {
        let ids = doc::preorder(s.doc.nodes.map, s.doc.root);
        lemma_shown_texts(s.doc.nodes.map, ids, i);
        lemma_add_listed(blocks, s.body_anchor, n, i);
        let k = choose|k: int|
            0 <= k < added.len() && (#[trigger] added[k] matches DocxOpView::Add {
                after: _,
                text: t,
            } && t == blocks[i].text);
        assert(list[sets.len() + removes.len() + k] == added[k]);
    }
}

/// What stands behind an anchor after the first `n` ops each put their text right behind it.
pub open spec fn behind_anchor(list: Seq<DocxOpView>, n: int) -> Seq<Seq<char>>
    decreases n,
{
    if n <= 0 {
        Seq::empty()
    } else {
        match list[n - 1] {
            DocxOpView::Add { after: _, text } => seq![text] + behind_anchor(list, n - 1),
            _ => behind_anchor(list, n - 1),
        }
    }
}

proof fn lemma_behind_anchor(anchor: Seq<char>, run: Seq<Seq<char>>, n: int)
    requires
        0 <= n <= run.len(),
    ensures
        behind_anchor((AddScan { ops: Seq::empty(), anchor: Some(anchor), run }).flushed(), n)
            == run.skip(run.len() - n),
    decreases n,
{
    let scan = AddScan { ops: Seq::empty(), anchor: Some(anchor), run };
    let list = scan.flushed();
    if n > 0 {
        lemma_behind_anchor(anchor, run, n - 1);
        assert(scan.turn(n - 1) == run.len() - n);
        assert(list[n - 1] == (DocxOpView::Add { after: Some(anchor), text: run[run.len() - n] }));
        assert(seq![run[run.len() - n]] + run.skip(run.len() - n + 1) =~= run.skip(run.len() - n));
    } else {
        assert(run.skip(run.len() as int) =~= Seq::empty());
    }
}

/// Paragraphs that were added behind the same anchor end up in reading order.
pub proof fn law_added_run_keeps_its_order(anchor: Seq<char>, run: Seq<Seq<char>>)
    ensures
        behind_anchor(
            (AddScan { ops: Seq::empty(), anchor: Some(anchor), run }).flushed(),
            run.len() as int,
        ) == run,
{
    lemma_behind_anchor(anchor, run, run.len() as int);
    assert(run.skip(0) =~= run);
}

/// What the first `n` ops append to the end, each its text.
pub open spec fn at_the_end(list: Seq<DocxOpView>, n: int) -> Seq<Seq<char>>
    decreases n,
{
    if n <= 0 {
        Seq::empty()
    } else {
        match list[n - 1] {
            DocxOpView::Add { after: _, text } => at_the_end(list, n - 1).push(text),
            _ => at_the_end(list, n - 1),
        }
    }
}

proof fn lemma_at_the_end(run: Seq<Seq<char>>, n: int)
    requires
        0 <= n <= run.len(),
    ensures
        at_the_end((AddScan { ops: Seq::empty(), anchor: None, run }).flushed(), n) == run.take(n),
    decreases n,
{
    let list = (AddScan { ops: Seq::empty(), anchor: None, run }).flushed();
    if n > 0 {
        lemma_at_the_end(run, n - 1);
        assert(list[n - 1] == (DocxOpView::Add { after: None, text: run[n - 1] }));
        assert(run.take(n - 1).push(run[n - 1]) =~= run.take(n));
    } else {
        assert(run.take(0) =~= Seq::empty());
    }
}

/// Paragraphs that were added where there is no anchor are appended in reading order.
pub proof fn law_appended_run_keeps_its_order(run: Seq<Seq<char>>)
    ensures
        at_the_end(
            (AddScan { ops: Seq::empty(), anchor: None, run }).flushed(),
            run.len() as int,
        ) == run,
{
    lemma_at_the_end(run, run.len() as int);
    assert(run.take(run.len() as int) =~= run);
}

} // verus!
